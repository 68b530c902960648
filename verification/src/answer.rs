//! Answering queries from the cache: each question is looked up (reverse
//! names, addresses, mail exchangers, the CHAOS version queries) and the
//! reply is built when every question got an answer.

use crate::arpa::{arpa_outcome, in_arpa_name_2_addr, ArpaOutcome};
use crate::cache::{cv_find_addr, cv_find_name, is_static, Cache, CacheRec, CacheView, CrecView, RecView};
use crate::dnsmasq::{
    spec_header_bytes, spec_header_of, AllAddr, Header, C_CHAOS, C_IN, F_DHCP, F_HOSTS, F_IMMORTAL,
    F_IPV4, F_IPV6, F_NEG, F_NXDOMAIN, NOERROR, NXDOMAIN, OPT_BOGUSPRIV, OPT_FILTER, OPT_LOCALMX,
    OPT_SELFMX, PACKETSZ, QUERY, T_A, T_AAAA, T_ANY, T_MAILB, T_MX, T_PTR, T_SOA, T_SRV, T_TXT,
};
use crate::extract::{read_rr, spec_read_rr, RrRead};
use crate::rfc1035::{
    add_text_record, be128_bytes, decimal_chars, extract_name, header_of, private_net, push_decimal,
    put_addr6, skip_questions, spec_answer_offset, spec_private_net, spec_skip_questions,
    spec_text_record,
};
use crate::util::{
    be16_bytes, be32_bytes, extend_bytes, put_long, put_short, str_chars, str_eq, string_from_chars,
    time_before, time_lt, Time,
};
use vstd::prelude::*;
use vstd::string::StringSliceAdditionalSpecFns;
use vstd::utf8::encode_utf8;

verus! {

/// The version reported to a CHAOS `version.bind` query.
pub open spec fn version_text() -> Seq<u8> {
    seq![0x30u8, 0x2e, 0x31, 0x2e, 0x30]
}

/// What is being built while the questions are answered.
pub struct AnsState {
    pub c: CacheView,
    pub ansp: Seq<u8>,
    pub anscount: u16,
    /// Every answer came from the hosts file or DHCP.
    pub auth: bool,
    /// A negative answer said the name does not exist.
    pub nx: bool,
    /// Some question got an answer (kept across questions).
    pub ans: bool,
}

/// How answering a part of a question ends.
pub enum AStep {
    /// Answering would stop at a fault (an absent or wrong-kind address, or a
    /// counter running over).
    Panic,
    /// No reply is given; the cache as it is.
    Refuse(CacheView),
    Next(AnsState),
}

/// The settings an answer depends on.
pub struct AnsCtx {
    pub opts: u32,
    pub mxname: Seq<char>,
    pub mxtarget: Seq<char>,
    pub now: Time,
    pub local_ttl: u32,
}

/// Whole seconds from `now` until `ttd` (which is not before `now`).
pub open spec fn secs_until(ttd: Time, now: Time) -> int {
    if ttd.nanos >= now.nanos {
        ttd.secs - now.secs
    } else {
        ttd.secs - now.secs - 1
    }
}

/// The time to live given for a record: the local one for immortal and
/// DHCP records, otherwise the whole seconds left (0 once past), kept to
/// 32 bits.
pub open spec fn ttl_of(r: CrecView, now: Time, local_ttl: u32) -> u32 {
    if r.flags & (F_IMMORTAL | F_DHCP) != 0 {
        local_ttl
    } else if time_lt(r.ttd, now) {
        0
    } else {
        (secs_until(r.ttd, now) as u64) as u32
    }
}

/// A checked addition of record `rec`: no reply once the answers pass
/// `PACKETSZ` bytes.
pub open spec fn add_checked(st: AnsState, rec: Seq<u8>, auth: bool) -> AStep {
    if st.anscount == u16::MAX {
        AStep::Panic
    } else if st.ansp.len() + rec.len() > PACKETSZ {
        AStep::Refuse(st.c)
    } else {
        AStep::Next(AnsState { ansp: st.ansp + rec, anscount: (st.anscount + 1) as u16, auth, ans: true, ..st })
    }
}

/// A negative record found: an answer, but not an authoritative one.
pub open spec fn neg_found(st: AnsState, r: CrecView) -> AnsState {
    AnsState { ans: true, auth: false, nx: st.nx || r.flags & F_NXDOMAIN != 0, ..st }
}

/// A record found for a reverse question: a negative one marks the
/// answer; otherwise its name is the answer.  A question for any type is
/// only answered from the hosts file or DHCP.
pub open spec fn ptr_record(st: AnsState, r: CrecView, qtype: u16, nameoffset: u16, ctx: AnsCtx) -> AStep {
    if qtype == T_ANY && !is_static(r) {
        AStep::Refuse(st.c)
    } else if r.flags & F_NEG != 0 {
        AStep::Next(neg_found(st, r))
    } else {
        add_checked(
            st,
            spec_text_record(nameoffset, ttl_of(r, ctx.now, ctx.local_ttl), 0, T_PTR, encode_utf8(r.name)),
            st.auth && is_static(r),
        )
    }
}

/// The address record for record `r`: A (`v6` false) or AAAA; none when
/// the record holds no address of that kind.
pub open spec fn addr_record(r: CrecView, v6: bool, nameoffset: u16, ttl: u32) -> Option<Seq<u8>> {
    let head = be16_bytes(nameoffset | 0xc000u16);
    match r.addr {
        Some(AllAddr::V4(a)) => if !v6 {
            Some(head + be16_bytes(T_A) + be16_bytes(C_IN) + be32_bytes(ttl) + be16_bytes(4) + be32_bytes(a))
        } else {
            None
        },
        Some(AllAddr::V6(a)) => if v6 {
            Some(head + be16_bytes(T_AAAA) + be16_bytes(C_IN) + be32_bytes(ttl) + be16_bytes(16) + be128_bytes(a))
        } else {
            None
        },
        None => None,
    }
}

/// A record found for an address question.
pub open spec fn a_record(st: AnsState, r: CrecView, qtype: u16, v6: bool, nameoffset: u16, ctx: AnsCtx) -> AStep {
    if qtype == T_ANY && !is_static(r) {
        AStep::Refuse(st.c)
    } else if r.flags & F_NEG != 0 {
        AStep::Next(neg_found(st, r))
    } else {
        match addr_record(r, v6, nameoffset, ttl_of(r, ctx.now, ctx.local_ttl)) {
            None => AStep::Panic,
            Some(rec) => add_checked(st, rec, st.auth && is_static(r)),
        }
    }
}

/// The records found for a reverse question, one after the other: the
/// first is `r`, each next one comes from asking the cache again.
pub open spec fn ptr_loop(st: AnsState, r: Option<RecView>, addr: Option<AllAddr>, prot: u16, qtype: u16, nameoffset: u16, ctx: AnsCtx) -> AStep
    decreases st.c.addr_matches.len() - st.c.addr_index,
{
    match r {
        None => AStep::Next(st),
        Some(x) => match ptr_record(st, x.crec, qtype, nameoffset, ctx) {
            AStep::Next(st2) => if st2.c.addr_index == usize::MAX {
                AStep::Panic
            } else {
                let (c2, r2) = cv_find_addr(st2.c, true, addr, ctx.now, prot);
                let st3 = AnsState { c: c2, ..st2 };
                if r2 is Some && st2.c.addr_index + 1 < st2.c.addr_matches.len() {
                    ptr_loop(st3, r2, addr, prot, qtype, nameoffset, ctx)
                } else {
                    AStep::Next(st3)
                }
            },
            other => other,
        },
    }
}

/// The records found for an address question (see `ptr_loop`).
pub open spec fn a_loop(st: AnsState, r: Option<RecView>, name: Seq<char>, prot: u16, qtype: u16, v6: bool, nameoffset: u16, ctx: AnsCtx) -> AStep
    decreases st.c.name_matches.len() - st.c.name_index,
{
    match r {
        None => AStep::Next(st),
        Some(x) => match a_record(st, x.crec, qtype, v6, nameoffset, ctx) {
            AStep::Next(st2) => if st2.c.name_index == usize::MAX {
                AStep::Panic
            } else {
                let (c2, r2) = cv_find_name(st2.c, true, name, ctx.now, prot);
                let st3 = AnsState { c: c2, ..st2 };
                if r2 is Some && st2.c.name_index + 1 < st2.c.name_matches.len() {
                    a_loop(st3, r2, name, prot, qtype, v6, nameoffset, ctx)
                } else {
                    AStep::Next(st3)
                }
            },
            other => other,
        },
    }
}

/// The plain values of a record that may be absent.
pub open spec fn opt_rv(r: Option<CacheRec>) -> Option<RecView> {
    match r {
        Some(x) => Some(x@),
        None => None,
    }
}

/// The dotted decimal form of an IPv4 address.
pub open spec fn dotted(v: u32) -> Seq<char> {
    decimal_chars((v as int / 16777216) as nat) + seq!['.'] + decimal_chars(((v as int / 65536) % 256) as nat) + seq!['.']
        + decimal_chars(((v as int / 256) % 256) as nat) + seq!['.'] + decimal_chars((v as int % 256) as nat)
}

/// An unchecked addition of record `rec` (the mail exchanger answers).
pub open spec fn add_unchecked(st: AnsState, rec: Seq<u8>) -> AStep {
    if st.anscount == u16::MAX {
        AStep::Panic
    } else {
        AStep::Next(AnsState { ansp: st.ansp + rec, anscount: (st.anscount + 1) as u16, ans: true, ..st })
    }
}

/// The reverse part of a question: the cache is searched by address; when
/// no question has been answered yet, a private IPv4 address is given its
/// own dotted form as name, if the options ask for it.
#[verifier::opaque]
pub open spec fn ptr_part(st: AnsState, addr: Option<AllAddr>, is_arpa: u16, qtype: u16, nameoffset: u16, ctx: AnsCtx) -> AStep {
    let (c1, r) = cv_find_addr(st.c, false, addr, ctx.now, is_arpa);
    match ptr_loop(AnsState { c: c1, ..st }, r, addr, is_arpa, qtype, nameoffset, ctx) {
        AStep::Next(st2) => if !st2.ans && is_arpa == F_IPV4 && ctx.opts & OPT_BOGUSPRIV != 0 && (addr matches Some(
            a,
        ) && spec_private_net(a)) {
            match addr {
                Some(AllAddr::V4(v)) => add_checked(
                    st2,
                    spec_text_record(nameoffset, ctx.local_ttl, 0, T_PTR, encode_utf8(dotted(v))),
                    st2.auth,
                ),
                _ => AStep::Next(st2),
            }
        } else {
            AStep::Next(st2)
        },
        other => other,
    }
}

/// The address part of a question (A, `v6` false, or AAAA): with the
/// filter option a name holding `_` asked for any type counts as answered;
/// otherwise the cache is searched by name.
#[verifier::opaque]
pub open spec fn a_part(st: AnsState, name: Seq<char>, qtype: u16, v6: bool, nameoffset: u16, ctx: AnsCtx) -> AStep {
    if ctx.opts & OPT_FILTER != 0 && qtype == T_ANY && name.contains('_') {
        AStep::Next(AnsState { ans: true, ..st })
    } else {
        let prot = if v6 {
            F_IPV6
        } else {
            F_IPV4
        };
        let (c1, r) = cv_find_name(st.c, false, name, ctx.now, prot);
        a_loop(AnsState { c: c1, ..st }, r, name, prot, qtype, v6, nameoffset, ctx)
    }
}

/// The mail exchanger part of a question: the configured name gets the
/// configured target; with the self or local option a name from the hosts
/// file or DHCP gets itself (self) or the configured target.
#[verifier::opaque]
pub open spec fn mx_part(st: AnsState, name: Seq<char>, nameoffset: u16, ctx: AnsCtx) -> AStep {
    if ctx.mxname.len() > 0 && ctx.mxname == name {
        add_unchecked(st, spec_text_record(nameoffset, ctx.local_ttl, 1, T_MX, encode_utf8(ctx.mxtarget)))
    } else if ctx.opts & (OPT_SELFMX | OPT_LOCALMX) != 0 {
        let (c1, f) = cv_find_name(st.c, false, name, ctx.now, F_HOSTS | F_DHCP);
        let st1 = AnsState { c: c1, ..st };
        if f is Some {
            let t = if ctx.opts & OPT_SELFMX != 0 {
                name
            } else {
                ctx.mxtarget
            };
            add_unchecked(st1, spec_text_record(nameoffset, ctx.local_ttl, 1, T_MX, encode_utf8(t)))
        } else {
            AStep::Next(st1)
        }
    } else {
        AStep::Next(st)
    }
}

/// The mail exchanger of the configured mail host: a question for the
/// configured mx-host name gets one more answer, an MX record with the
/// local time to live whose data is preference 1 and the configured
/// mx-target written as DNS labels; the answers before it and the cache
/// are left as they were, whatever the other settings.
pub proof fn law_mx_host_names_target(st: AnsState, name: Seq<char>, nameoffset: u16, ctx: AnsCtx)
    requires
        ctx.mxname.len() > 0,
        name == ctx.mxname,
        st.anscount < u16::MAX,
    ensures
        mx_part(st, name, nameoffset, ctx) matches AStep::Next(st2) && {
            let rec = st2.ansp.skip(st.ansp.len() as int);
            &&& st2.ansp.take(st.ansp.len() as int) == st.ansp
            &&& st2.anscount == st.anscount + 1
            &&& st2.c == st.c
            &&& rec.subrange(2, 4) == be16_bytes(T_MX)
            &&& rec.subrange(6, 10) == be32_bytes(ctx.local_ttl)
            &&& rec.skip(12) == be16_bytes(1) + crate::rfc1035::dns_labels(encode_utf8(ctx.mxtarget)) + seq![0u8]
        },
{
    reveal(mx_part);
    let rec = spec_text_record(nameoffset, ctx.local_ttl, 1, T_MX, encode_utf8(ctx.mxtarget));
    let data = be16_bytes(1) + crate::rfc1035::dns_labels(encode_utf8(ctx.mxtarget)) + seq![0u8];
    assert(rec =~= be16_bytes(nameoffset | 0xc000u16) + be16_bytes(T_MX) + be16_bytes(C_IN) + be32_bytes(ctx.local_ttl)
        + crate::rfc1035::rdlength_bytes(data.len() as int) + data);
    let st2 = AnsState { ansp: st.ansp + rec, anscount: (st.anscount + 1) as u16, ans: true, ..st };
    assert(mx_part(st, name, nameoffset, ctx) == AStep::Next(st2));
    assert(st2.ansp.skip(st.ansp.len() as int) =~= rec);
    assert(st2.ansp.take(st.ansp.len() as int) =~= st.ansp);
    assert(rec.subrange(2, 4) =~= be16_bytes(T_MX));
    assert(rec.subrange(6, 10) =~= be32_bytes(ctx.local_ttl));
    assert(rec.skip(12) =~= data);
}

/// The text of a CHAOS TXT answer: the version for `version.bind`, the
/// author for `authors.bind`, nothing otherwise.
pub open spec fn chaos_text(name: Seq<char>) -> Seq<u8> {
    if name == seq!['v', 'e', 'r', 's', 'i', 'o', 'n', '.', 'b', 'i', 'n', 'd'] {
        seq![0x64u8, 0x6e, 0x73, 0x6d, 0x61, 0x73, 0x71, 0x2d] + version_text()
    } else if name == seq!['a', 'u', 't', 'h', 'o', 'r', 's', '.', 'b', 'i', 'n', 'd'] {
        seq![0x53u8, 0x69, 0x6d, 0x6f, 0x6e, 0x20, 0x4b, 0x65, 0x6c, 0x6c, 0x65, 0x79]
    } else {
        seq![]
    }
}

/// The CHAOS TXT answer record for `name`.
pub open spec fn chaos_record(name: Seq<char>, nameoffset: u16) -> Seq<u8> {
    let t = chaos_text(name);
    be16_bytes(nameoffset | 0xc000u16) + be16_bytes(T_TXT) + be16_bytes(C_CHAOS) + be32_bytes(0) + be16_bytes(
        (t.len() + 1) as u16,
    ) + seq![t.len() as u8] + t
}

/// Answering one question, whose fixed part is `h`.
#[verifier::opaque]
pub open spec fn class_answer(st: AnsState, h: crate::extract::RrHead, is_arpa: u16, addr: Option<AllAddr>, nameoffset: u16, ctx: AnsCtx) -> AStep {
    let qt = h.qtype;
    if h.qclass == C_CHAOS {
        if qt == T_TXT {
            add_checked(st, chaos_record(h.name, nameoffset), st.auth)
        } else {
            AStep::Refuse(st.c)
        }
    } else if h.qclass != C_IN {
        AStep::Refuse(st.c)
    } else {
        let st0 = if ctx.opts & OPT_FILTER != 0 && (qt == T_SOA || qt == T_SRV) {
            AnsState { ans: true, ..st }
        } else {
            st
        };
        let s1 = if qt == T_PTR || qt == T_ANY {
            ptr_part(st0, addr, is_arpa, qt, nameoffset, ctx)
        } else {
            AStep::Next(st0)
        };
        let s2 = match s1 {
            AStep::Next(x) => if qt == T_A || qt == T_ANY {
                a_part(x, h.name, qt, false, nameoffset, ctx)
            } else {
                AStep::Next(x)
            },
            other => other,
        };
        let s3 = match s2 {
            AStep::Next(x) => if qt == T_AAAA || qt == T_ANY {
                a_part(x, h.name, qt, true, nameoffset, ctx)
            } else {
                AStep::Next(x)
            },
            other => other,
        };
        let s4 = match s3 {
            AStep::Next(x) => if qt == T_MX || qt == T_ANY {
                mx_part(x, h.name, nameoffset, ctx)
            } else {
                AStep::Next(x)
            },
            other => other,
        };
        match s4 {
            AStep::Next(x) => if qt == T_MAILB {
                AStep::Next(AnsState { ans: true, nx: true, ..x })
            } else {
                AStep::Next(x)
            },
            other => other,
        }
    }
}

/// How answering a question ends: where the next question starts and how
/// many bytes this one took.
pub enum QStep {
    Panic,
    Refuse(CacheView),
    Next(Seq<u8>, usize, AnsState),
}

/// One question at `p`; the answers point back at offset 12 plus the
/// length of the question before.  A question
/// that gets no answer, when none before got one, ends in no reply.
#[verifier::opaque]
pub open spec fn q_step(packet: Seq<u8>, p: Seq<u8>, se_prev: usize, st: AnsState, ctx: AnsCtx) -> QStep {
    if (se_prev as u16) as int + 12 > u16::MAX {
        QStep::Panic
    } else {
        let nameoffset = (12 + (se_prev as u16)) as u16;
        match spec_read_rr(packet, p, 4) {
            RrRead::Panic => QStep::Panic,
            RrRead::Fail => QStep::Refuse(st.c),
            RrRead::Read(h) => match arpa_outcome(h.name) {
                ArpaOutcome::Panic => QStep::Panic,
                ArpaOutcome::Res(is_arpa, addr) => match class_answer(st, h, is_arpa, addr, nameoffset, ctx) {
                    AStep::Panic => QStep::Panic,
                    AStep::Refuse(c) => QStep::Refuse(c),
                    AStep::Next(st2) => if !st2.ans {
                        QStep::Refuse(st2.c)
                    } else {
                        QStep::Next(h.rest, (p.len() - h.rest.len()) as usize, st2)
                    },
                },
            },
        }
    }
}

/// The first `i` questions, from `p0`.
pub open spec fn q_run(packet: Seq<u8>, p0: Seq<u8>, st0: AnsState, ctx: AnsCtx, i: nat) -> QStep
    decreases i,
{
    if i == 0 {
        QStep::Next(p0, 0, st0)
    } else {
        match q_run(packet, p0, st0, ctx, (i - 1) as nat) {
            QStep::Next(p, se, st) => q_step(packet, p, se, st, ctx),
            other => other,
        }
    }
}

proof fn lemma_q_stops(packet: Seq<u8>, p0: Seq<u8>, st0: AnsState, ctx: AnsCtx, i: nat, n: nat)
    requires
        i <= n,
        !(q_run(packet, p0, st0, ctx, i) is Next),
    ensures
        q_run(packet, p0, st0, ctx, n) == q_run(packet, p0, st0, ctx, i),
    decreases n - i,
{
    if i < n {
        lemma_q_stops(packet, p0, st0, ctx, i, (n - 1) as nat);
    }
}

/// How answering a query ends.
pub enum AnswerOutcome {
    Panic,
    /// The reply (empty when none is given) and the cache afterwards.
    Done(Seq<u8>, CacheView),
}

/// The header of the reply: a response, authoritative when every answer
/// came from the hosts file or DHCP, recursion available, NXDOMAIN when
/// there are no answers and a negative one said the name does not exist.
pub open spec fn answer_header(h: Header, st: AnsState) -> Header {
    Header {
        qr: true,
        aa: st.auth,
        ra: true,
        tc: false,
        rcode: if st.anscount == 0 && st.nx {
            NXDOMAIN
        } else {
            NOERROR
        },
        ancount: st.anscount,
        nscount: 0,
        arcount: 0,
        ..h
    }
}

/// Answering a query from the cache: only standard queries with
/// questions whose section can be skipped are answered; every question
/// is answered in turn; the reply is the header, the questions and the
/// answers.
pub open spec fn answer_outcome(c: CacheView, packet: Seq<u8>, ctx: AnsCtx) -> AnswerOutcome {
    if packet.len() < 12 {
        AnswerOutcome::Panic
    } else {
        let h = spec_header_of(packet);
        if h.qdcount == 0 || h.opcode != QUERY {
            AnswerOutcome::Done(seq![], c)
        } else if spec_skip_questions(packet) is Panic {
            AnswerOutcome::Panic
        } else if spec_answer_offset(packet) == 0 {
            AnswerOutcome::Done(seq![], c)
        } else {
            let st0 = AnsState { c, ansp: seq![], anscount: 0, auth: true, nx: false, ans: false };
            match q_run(packet, packet.subrange(12, packet.len() as int), st0, ctx, h.qdcount as nat) {
                QStep::Panic => AnswerOutcome::Panic,
                QStep::Refuse(c2) => AnswerOutcome::Done(seq![], c2),
                QStep::Next(_, _, st) => AnswerOutcome::Done(
                    spec_header_bytes(answer_header(h, st)) + packet.subrange(12, spec_answer_offset(packet)) + st.ansp,
                    st.c,
                ),
            }
        }
    }
}

// ---------------------------------------------------------------------
// Building the answers
// ---------------------------------------------------------------------

/// What is being built, in executable form.
pub struct AnsBuf {
    pub ansp: Vec<u8>,
    pub anscount: u16,
    pub auth: bool,
    pub nx: bool,
    pub ans: bool,
}

/// The state of an answer with cache `c` and buffer `b`.
pub open spec fn st_of(c: CacheView, b: AnsBuf) -> AnsState {
    AnsState { c, ansp: b.ansp@, anscount: b.anscount, auth: b.auth, nx: b.nx, ans: b.ans }
}

/// The settings of an answer.
pub open spec fn ctx_of(opts: u32, mxname: &str, mxtarget: &str, now: Time, local_ttl: u32) -> AnsCtx {
    AnsCtx { opts, mxname: mxname@, mxtarget: mxtarget@, now, local_ttl }
}

/// The time to live given for record `r` (see `ttl_of`).
fn ttl_exec(r: &crate::dnsmasq::Crec, now: Time, local_ttl: u32) -> (t: u32)
    ensures
        t == ttl_of(r@, now, local_ttl),
{
    if r.flags & (F_IMMORTAL | F_DHCP) != 0 {
        local_ttl
    } else if time_before(r.ttd, now) {
        0
    } else {
        let secs: u64 = if r.ttd.nanos >= now.nanos {
            r.ttd.secs - now.secs
        } else {
            r.ttd.secs - now.secs - 1
        };
        secs as u32
    }
}

/// Adds record `rec` with a length check (see `add_checked`).
fn add_checked_exec(buf: &mut AnsBuf, rec: &Vec<u8>, auth: bool, Ghost(c): Ghost<CacheView>) -> (ok: bool)
    requires
        !(add_checked(st_of(c, *old(buf)), rec@, auth) is Panic),
    ensures
        ok ==> add_checked(st_of(c, *old(buf)), rec@, auth) == AStep::Next(st_of(c, *final(buf))),
        !ok ==> add_checked(st_of(c, *old(buf)), rec@, auth) == AStep::Refuse(c),
{
    if rec.len() > PACKETSZ || buf.ansp.len() > PACKETSZ - rec.len() {
        return false;
    }
    extend_bytes(&mut buf.ansp, rec.as_slice());
    buf.anscount = buf.anscount + 1;
    buf.auth = auth;
    buf.ans = true;
    true
}

/// Adds record `rec` without a length check (see `add_unchecked`).
fn add_unchecked_exec(buf: &mut AnsBuf, rec: &Vec<u8>, Ghost(c): Ghost<CacheView>)
    requires
        !(add_unchecked(st_of(c, *old(buf)), rec@) is Panic),
    ensures
        add_unchecked(st_of(c, *old(buf)), rec@) == AStep::Next(st_of(c, *final(buf))),
{
    extend_bytes(&mut buf.ansp, rec.as_slice());
    buf.anscount = buf.anscount + 1;
    buf.ans = true;
}

/// Marks a negative record found (see `neg_found`).
fn neg_found_exec(buf: &mut AnsBuf, r: &crate::dnsmasq::Crec, Ghost(c): Ghost<CacheView>)
    ensures
        st_of(c, *final(buf)) == neg_found(st_of(c, *old(buf)), r@),
{
    buf.ans = true;
    buf.auth = false;
    if r.flags & F_NXDOMAIN != 0 {
        buf.nx = true;
    }
}

/// One record found for a reverse question (see `ptr_record`).
fn ptr_record_exec(buf: &mut AnsBuf, r: &crate::dnsmasq::Crec, qtype: u16, nameoffset: u16, ctx_now: Time, local_ttl: u32, Ghost(c): Ghost<CacheView>, Ghost(ctx): Ghost<AnsCtx>) -> (ok: bool)
    requires
        ctx.now == ctx_now,
        ctx.local_ttl == local_ttl,
        !(ptr_record(st_of(c, *old(buf)), r@, qtype, nameoffset, ctx) is Panic),
    ensures
        ok ==> ptr_record(st_of(c, *old(buf)), r@, qtype, nameoffset, ctx) == AStep::Next(st_of(c, *final(buf))),
        !ok ==> ptr_record(st_of(c, *old(buf)), r@, qtype, nameoffset, ctx) == AStep::Refuse(c),
{
    let st: bool = r.flags & (F_HOSTS | F_DHCP) != 0;
    if qtype == T_ANY && !st {
        return false;
    }
    if r.flags & F_NEG != 0 {
        neg_found_exec(buf, r, Ghost(c));
        return true;
    }
    let ttl: u32 = ttl_exec(r, ctx_now, local_ttl);
    let rec: Vec<u8> = add_text_record(nameoffset, ttl, 0, T_PTR, r.name.as_str());
    let auth: bool = buf.auth && st;
    add_checked_exec(buf, &rec, auth, Ghost(c))
}

/// The address record for `r` (see `addr_record`), known to exist.
fn addr_record_exec(r: &crate::dnsmasq::Crec, v6: bool, nameoffset: u16, ttl: u32) -> (rec: Vec<u8>)
    requires
        addr_record(r@, v6, nameoffset, ttl) is Some,
    ensures
        addr_record(r@, v6, nameoffset, ttl) == Some(rec@),
{
    let mut rec: Vec<u8> = Vec::new();
    put_short(nameoffset | 0xc000, &mut rec);
    match r.addr {
        Some(AllAddr::V4(a)) => {
            put_short(T_A, &mut rec);
            put_short(C_IN, &mut rec);
            put_long(ttl, &mut rec);
            put_short(4, &mut rec);
            put_long(a, &mut rec);
        },
        Some(AllAddr::V6(a)) => {
            put_short(T_AAAA, &mut rec);
            put_short(C_IN, &mut rec);
            put_long(ttl, &mut rec);
            put_short(16, &mut rec);
            put_addr6(a, &mut rec);
        },
        None => {},
    }
    rec
}

/// One record found for an address question (see `a_record`).
fn a_record_exec(buf: &mut AnsBuf, r: &crate::dnsmasq::Crec, qtype: u16, v6: bool, nameoffset: u16, ctx_now: Time, local_ttl: u32, Ghost(c): Ghost<CacheView>, Ghost(ctx): Ghost<AnsCtx>) -> (ok: bool)
    requires
        ctx.now == ctx_now,
        ctx.local_ttl == local_ttl,
        !(a_record(st_of(c, *old(buf)), r@, qtype, v6, nameoffset, ctx) is Panic),
    ensures
        ok ==> a_record(st_of(c, *old(buf)), r@, qtype, v6, nameoffset, ctx) == AStep::Next(st_of(c, *final(buf))),
        !ok ==> a_record(st_of(c, *old(buf)), r@, qtype, v6, nameoffset, ctx) == AStep::Refuse(c),
{
    let st: bool = r.flags & (F_HOSTS | F_DHCP) != 0;
    if qtype == T_ANY && !st {
        return false;
    }
    if r.flags & F_NEG != 0 {
        neg_found_exec(buf, r, Ghost(c));
        return true;
    }
    let ttl: u32 = ttl_exec(r, ctx_now, local_ttl);
    let rec: Vec<u8> = addr_record_exec(r, v6, nameoffset, ttl);
    let auth: bool = buf.auth && st;
    add_checked_exec(buf, &rec, auth, Ghost(c))
}

/// A record found for a reverse question, then the cache asked again:
/// the next record when the loop goes on (see `ptr_loop`).
fn ptr_next(caches: &mut Cache, buf: &mut AnsBuf, x: &CacheRec, addr: Option<AllAddr>, prot: u16, qtype: u16, nameoffset: u16, now: Time, local_ttl: u32, Ghost(ctx): Ghost<AnsCtx>) -> (r: (bool, Option<CacheRec>))
    requires
        old(caches).wf(),
        now.wf(),
        now.secs <= i64::MAX as u64,
        ctx.now == now,
        ctx.local_ttl == local_ttl,
        !(ptr_loop(st_of(old(caches)@, *old(buf)), Some(x@), addr, prot, qtype, nameoffset, ctx) is Panic),
    ensures
        final(caches).wf(),
        !r.0 ==> ptr_loop(st_of(old(caches)@, *old(buf)), Some(x@), addr, prot, qtype, nameoffset, ctx) == AStep::Refuse(final(caches)@),
        r.0 && r.1 is None ==> ptr_loop(st_of(old(caches)@, *old(buf)), Some(x@), addr, prot, qtype, nameoffset, ctx) == AStep::Next(st_of(final(caches)@, *final(buf))),
        r.0 && r.1 is Some ==> ptr_loop(st_of(old(caches)@, *old(buf)), Some(x@), addr, prot, qtype, nameoffset, ctx) == ptr_loop(st_of(final(caches)@, *final(buf)), opt_rv(r.1), addr, prot, qtype, nameoffset, ctx),
        r.1 is Some ==> final(caches).match_addr_index < final(caches)@.addr_matches.len(),
        r.0 ==> final(caches).match_addr_index == old(caches).match_addr_index + 1,
        r.0 ==> final(caches).match_addr@.len() == old(caches).match_addr@.len(),
        final(caches)@.addr_matches.len() == final(caches).match_addr@.len(),
{
    let ghost c0 = caches@;
    if !ptr_record_exec(buf, &x.crec, qtype, nameoffset, now, local_ttl, Ghost(c0), Ghost(ctx)) {
        return (false, None);
    }
    let cont: bool = caches.match_addr_index + 1 < caches.match_addr.len();
    let r2: Option<CacheRec> = caches.cache_find_by_addr(Some(x.uid), addr, now, prot);
    if cont && r2.is_some() {
        (true, r2)
    } else {
        (true, None)
    }
}

/// The records of a reverse question from `first` on (see `ptr_loop`).
fn ptr_loop_exec(caches: &mut Cache, buf: &mut AnsBuf, first: Option<CacheRec>, addr: Option<AllAddr>, prot: u16, qtype: u16, nameoffset: u16, now: Time, local_ttl: u32, Ghost(ctx): Ghost<AnsCtx>) -> (ok: bool)
    requires
        old(caches).wf(),
        now.wf(),
        now.secs <= i64::MAX as u64,
        ctx.now == now,
        ctx.local_ttl == local_ttl,
        !(ptr_loop(st_of(old(caches)@, *old(buf)), opt_rv(first), addr, prot, qtype, nameoffset, ctx) is Panic),
    ensures
        final(caches).wf(),
        ok ==> ptr_loop(st_of(old(caches)@, *old(buf)), opt_rv(first), addr, prot, qtype, nameoffset, ctx) == AStep::Next(st_of(final(caches)@, *final(buf))),
        !ok ==> ptr_loop(st_of(old(caches)@, *old(buf)), opt_rv(first), addr, prot, qtype, nameoffset, ctx) == AStep::Refuse(final(caches)@),
{
    let ghost target = ptr_loop(st_of(caches@, *buf), opt_rv(first), addr, prot, qtype, nameoffset, ctx);
    let mut r: Option<CacheRec> = match first {
        None => {
            return true;
        },
        Some(x) => {
            let (ok, r2) = ptr_next(caches, buf, &x, addr, prot, qtype, nameoffset, now, local_ttl, Ghost(ctx));
            if !ok {
                return false;
            }
            r2
        },
    };
    loop
        invariant
            caches.wf(),
            now.wf(),
            now.secs <= i64::MAX as u64,
            ctx.now == now,
            ctx.local_ttl == local_ttl,
            target == ptr_loop(st_of(old(caches)@, *old(buf)), opt_rv(first), addr, prot, qtype, nameoffset, ctx),
            r is None ==> target == AStep::Next(st_of(caches@, *buf)),
            r is Some ==> target == ptr_loop(st_of(caches@, *buf), opt_rv(r), addr, prot, qtype, nameoffset, ctx),
            r is Some ==> caches.match_addr_index < caches@.addr_matches.len(),
            caches@.addr_matches.len() == caches.match_addr@.len(),
            !(target is Panic),
        decreases caches.match_addr@.len() - caches.match_addr_index,
    {
        match r {
            None => {
                return true;
            },
            Some(x) => {
                let (ok, r2) = ptr_next(caches, buf, &x, addr, prot, qtype, nameoffset, now, local_ttl, Ghost(ctx));
                if !ok {
                    return false;
                }
                r = r2;
            },
        }
    }
}

/// A record found for an address question, then the cache asked again
/// (see `a_loop`).
fn a_next(caches: &mut Cache, buf: &mut AnsBuf, x: &CacheRec, name: &str, prot: u16, qtype: u16, v6: bool, nameoffset: u16, now: Time, local_ttl: u32, Ghost(ctx): Ghost<AnsCtx>) -> (r: (bool, Option<CacheRec>))
    requires
        old(caches).wf(),
        now.wf(),
        now.secs <= i64::MAX as u64,
        ctx.now == now,
        ctx.local_ttl == local_ttl,
        !(a_loop(st_of(old(caches)@, *old(buf)), Some(x@), name@, prot, qtype, v6, nameoffset, ctx) is Panic),
    ensures
        final(caches).wf(),
        !r.0 ==> a_loop(st_of(old(caches)@, *old(buf)), Some(x@), name@, prot, qtype, v6, nameoffset, ctx) == AStep::Refuse(final(caches)@),
        r.0 && r.1 is None ==> a_loop(st_of(old(caches)@, *old(buf)), Some(x@), name@, prot, qtype, v6, nameoffset, ctx) == AStep::Next(st_of(final(caches)@, *final(buf))),
        r.0 && r.1 is Some ==> a_loop(st_of(old(caches)@, *old(buf)), Some(x@), name@, prot, qtype, v6, nameoffset, ctx) == a_loop(st_of(final(caches)@, *final(buf)), opt_rv(r.1), name@, prot, qtype, v6, nameoffset, ctx),
        r.1 is Some ==> final(caches).match_name_index < final(caches)@.name_matches.len(),
        r.0 ==> final(caches).match_name_index == old(caches).match_name_index + 1,
        r.0 ==> final(caches).match_name@.len() == old(caches).match_name@.len(),
        final(caches)@.name_matches.len() == final(caches).match_name@.len(),
{
    let ghost c0 = caches@;
    if !a_record_exec(buf, &x.crec, qtype, v6, nameoffset, now, local_ttl, Ghost(c0), Ghost(ctx)) {
        return (false, None);
    }
    let cont: bool = caches.match_name_index + 1 < caches.match_name.len();
    let r2: Option<CacheRec> = caches.cache_find_by_name(Some(x.uid), name, now, prot);
    if cont && r2.is_some() {
        (true, r2)
    } else {
        (true, None)
    }
}

/// The records of an address question from `first` on (see `a_loop`).
fn a_loop_exec(caches: &mut Cache, buf: &mut AnsBuf, first: Option<CacheRec>, name: &str, prot: u16, qtype: u16, v6: bool, nameoffset: u16, now: Time, local_ttl: u32, Ghost(ctx): Ghost<AnsCtx>) -> (ok: bool)
    requires
        old(caches).wf(),
        now.wf(),
        now.secs <= i64::MAX as u64,
        ctx.now == now,
        ctx.local_ttl == local_ttl,
        !(a_loop(st_of(old(caches)@, *old(buf)), opt_rv(first), name@, prot, qtype, v6, nameoffset, ctx) is Panic),
    ensures
        final(caches).wf(),
        ok ==> a_loop(st_of(old(caches)@, *old(buf)), opt_rv(first), name@, prot, qtype, v6, nameoffset, ctx) == AStep::Next(st_of(final(caches)@, *final(buf))),
        !ok ==> a_loop(st_of(old(caches)@, *old(buf)), opt_rv(first), name@, prot, qtype, v6, nameoffset, ctx) == AStep::Refuse(final(caches)@),
{
    let ghost target = a_loop(st_of(caches@, *buf), opt_rv(first), name@, prot, qtype, v6, nameoffset, ctx);
    let mut r: Option<CacheRec> = match first {
        None => {
            return true;
        },
        Some(x) => {
            let (ok, r2) = a_next(caches, buf, &x, name, prot, qtype, v6, nameoffset, now, local_ttl, Ghost(ctx));
            if !ok {
                return false;
            }
            r2
        },
    };
    loop
        invariant
            caches.wf(),
            now.wf(),
            now.secs <= i64::MAX as u64,
            ctx.now == now,
            ctx.local_ttl == local_ttl,
            target == a_loop(st_of(old(caches)@, *old(buf)), opt_rv(first), name@, prot, qtype, v6, nameoffset, ctx),
            r is None ==> target == AStep::Next(st_of(caches@, *buf)),
            r is Some ==> target == a_loop(st_of(caches@, *buf), opt_rv(r), name@, prot, qtype, v6, nameoffset, ctx),
            r is Some ==> caches.match_name_index < caches@.name_matches.len(),
            caches@.name_matches.len() == caches.match_name@.len(),
            !(target is Panic),
        decreases caches.match_name@.len() - caches.match_name_index,
    {
        match r {
            None => {
                return true;
            },
            Some(x) => {
                let (ok, r2) = a_next(caches, buf, &x, name, prot, qtype, v6, nameoffset, now, local_ttl, Ghost(ctx));
                if !ok {
                    return false;
                }
                r = r2;
            },
        }
    }
}

/// The dotted decimal form of an IPv4 address (see `dotted`).
fn dotted_exec(v: u32) -> (s: String)
    ensures
        s@ == dotted(v),
{
    let o0: u32 = v >> 24;
    let o1: u32 = (v >> 16) & 0xff;
    let o2: u32 = (v >> 8) & 0xff;
    let o3: u32 = v & 0xff;
    assert(o0 == v / 16777216 && o1 == (v / 65536) % 256 && o2 == (v / 256) % 256 && o3 == v % 256) by (bit_vector)
        requires
            o0 == v >> 24,
            o1 == (v >> 16) & 0xff,
            o2 == (v >> 8) & 0xff,
            o3 == v & 0xff,
    ;
    let mut cs: Vec<char> = Vec::new();
    push_decimal(&mut cs, o0 as u64);
    cs.push('.');
    push_decimal(&mut cs, o1 as u64);
    cs.push('.');
    push_decimal(&mut cs, o2 as u64);
    cs.push('.');
    push_decimal(&mut cs, o3 as u64);
    assert(cs@ =~= dotted(v));
    string_from_chars(cs.as_slice())
}

/// Whether `s` holds the character `c`.
fn has_char(s: &str, c: char) -> (b: bool)
    ensures
        b == s@.contains(c),
{
    let cs: Vec<char> = str_chars(s);
    let mut i: usize = 0;
    while i < cs.len()
        invariant
            cs@ == s@,
            i <= cs@.len(),
            forall|k: int| 0 <= k < i ==> cs@[k] != c,
        decreases cs@.len() - i,
    {
        if cs[i] == c {
            assert(s@[i as int] == c);
            return true;
        }
        i += 1;
    }
    false
}

/// Whether the characters of `s` are `lit`.
fn str_is(s: &str, lit: &[char]) -> (b: bool)
    ensures
        b == (s@ == lit@),
{
    let cs: Vec<char> = str_chars(s);
    if cs.len() != lit.len() {
        return false;
    }
    let mut i: usize = 0;
    while i < cs.len()
        invariant
            cs@ == s@,
            cs@.len() == lit@.len(),
            i <= cs@.len(),
            forall|k: int| 0 <= k < i ==> cs@[k] == lit@[k],
        decreases cs@.len() - i,
    {
        if cs[i] != lit[i] {
            return false;
        }
        i += 1;
    }
    assert(cs@ =~= lit@);
    true
}

/// The CHAOS TXT answer record for `name` (see `chaos_record`).
fn chaos_exec(name: &str, nameoffset: u16) -> (rec: Vec<u8>)
    ensures
        rec@ == chaos_record(name@, nameoffset),
{
    let text: Vec<u8> = if str_is(name, &['v', 'e', 'r', 's', 'i', 'o', 'n', '.', 'b', 'i', 'n', 'd']) {
        vec![0x64u8, 0x6e, 0x73, 0x6d, 0x61, 0x73, 0x71, 0x2d, 0x30, 0x2e, 0x31, 0x2e, 0x30]
    } else if str_is(name, &['a', 'u', 't', 'h', 'o', 'r', 's', '.', 'b', 'i', 'n', 'd']) {
        vec![0x53u8, 0x69, 0x6d, 0x6f, 0x6e, 0x20, 0x4b, 0x65, 0x6c, 0x6c, 0x65, 0x79]
    } else {
        Vec::new()
    };
    assert(text@ =~= chaos_text(name@));
    let mut rec: Vec<u8> = Vec::new();
    put_short(nameoffset | 0xc000, &mut rec);
    put_short(T_TXT, &mut rec);
    put_short(C_CHAOS, &mut rec);
    put_long(0, &mut rec);
    let len: usize = text.len();
    put_short((len + 1) as u16, &mut rec);
    rec.push(len as u8);
    extend_bytes(&mut rec, text.as_slice());
    rec
}

/// The reverse part of a question (see `ptr_part`).
fn ptr_part_exec(caches: &mut Cache, buf: &mut AnsBuf, addr: Option<AllAddr>, is_arpa: u16, qtype: u16, nameoffset: u16, opts: u32, now: Time, local_ttl: u32, Ghost(ctx): Ghost<AnsCtx>) -> (ok: bool)
    requires
        old(caches).wf(),
        now.wf(),
        now.secs <= i64::MAX as u64,
        ctx.now == now,
        ctx.local_ttl == local_ttl,
        ctx.opts == opts,
        !(ptr_part(st_of(old(caches)@, *old(buf)), addr, is_arpa, qtype, nameoffset, ctx) is Panic),
    ensures
        final(caches).wf(),
        ok ==> ptr_part(st_of(old(caches)@, *old(buf)), addr, is_arpa, qtype, nameoffset, ctx) == AStep::Next(st_of(final(caches)@, *final(buf))),
        !ok ==> ptr_part(st_of(old(caches)@, *old(buf)), addr, is_arpa, qtype, nameoffset, ctx) == AStep::Refuse(final(caches)@),
{
    reveal(ptr_part);
    let first: Option<CacheRec> = caches.cache_find_by_addr(None, addr, now, is_arpa);
    if !ptr_loop_exec(caches, buf, first, addr, is_arpa, qtype, nameoffset, now, local_ttl, Ghost(ctx)) {
        return false;
    }
    if !buf.ans && is_arpa == F_IPV4 && opts & OPT_BOGUSPRIV != 0 {
        match addr {
            Some(a) => {
                if private_net(&a) {
                    match a {
                        AllAddr::V4(v) => {
                            let s: String = dotted_exec(v);
                            let rec: Vec<u8> = add_text_record(nameoffset, local_ttl, 0, T_PTR, s.as_str());
                            let auth: bool = buf.auth;
                            let ghost c = caches@;
                            return add_checked_exec(buf, &rec, auth, Ghost(c));
                        },
                        AllAddr::V6(_) => {},
                    }
                }
            },
            None => {},
        }
    }
    true
}

/// The address part of a question (see `a_part`).
fn a_part_exec(caches: &mut Cache, buf: &mut AnsBuf, name: &str, qtype: u16, v6: bool, nameoffset: u16, opts: u32, now: Time, local_ttl: u32, Ghost(ctx): Ghost<AnsCtx>) -> (ok: bool)
    requires
        old(caches).wf(),
        now.wf(),
        now.secs <= i64::MAX as u64,
        ctx.now == now,
        ctx.local_ttl == local_ttl,
        ctx.opts == opts,
        !(a_part(st_of(old(caches)@, *old(buf)), name@, qtype, v6, nameoffset, ctx) is Panic),
    ensures
        final(caches).wf(),
        ok ==> a_part(st_of(old(caches)@, *old(buf)), name@, qtype, v6, nameoffset, ctx) == AStep::Next(st_of(final(caches)@, *final(buf))),
        !ok ==> a_part(st_of(old(caches)@, *old(buf)), name@, qtype, v6, nameoffset, ctx) == AStep::Refuse(final(caches)@),
{
    reveal(a_part);
    if opts & OPT_FILTER != 0 && qtype == T_ANY && has_char(name, '_') {
        buf.ans = true;
        return true;
    }
    let prot: u16 = if v6 {
        F_IPV6
    } else {
        F_IPV4
    };
    let first: Option<CacheRec> = caches.cache_find_by_name(None, name, now, prot);
    a_loop_exec(caches, buf, first, name, prot, qtype, v6, nameoffset, now, local_ttl, Ghost(ctx))
}

/// The mail exchanger part of a question (see `mx_part`).
fn mx_part_exec(caches: &mut Cache, buf: &mut AnsBuf, name: &str, nameoffset: u16, opts: u32, mxname: &str, mxtarget: &str, now: Time, local_ttl: u32, Ghost(ctx): Ghost<AnsCtx>)
    requires
        old(caches).wf(),
        now.wf(),
        now.secs <= i64::MAX as u64,
        ctx == ctx_of(opts, mxname, mxtarget, now, local_ttl),
        !(mx_part(st_of(old(caches)@, *old(buf)), name@, nameoffset, ctx) is Panic),
    ensures
        final(caches).wf(),
        mx_part(st_of(old(caches)@, *old(buf)), name@, nameoffset, ctx) == AStep::Next(st_of(final(caches)@, *final(buf))),
{
    reveal(mx_part);
    if !mxname.is_empty() && str_eq(mxname, name) {
        let rec: Vec<u8> = add_text_record(nameoffset, local_ttl, 1, T_MX, mxtarget);
        let ghost c = caches@;
        add_unchecked_exec(buf, &rec, Ghost(c));
        return;
    }
    if opts & (OPT_SELFMX | OPT_LOCALMX) != 0 {
        let f: Option<CacheRec> = caches.cache_find_by_name(None, name, now, F_HOSTS | F_DHCP);
        if f.is_some() {
            let t: &str = if opts & OPT_SELFMX != 0 {
                name
            } else {
                mxtarget
            };
            let rec: Vec<u8> = add_text_record(nameoffset, local_ttl, 1, T_MX, t);
            let ghost c = caches@;
            add_unchecked_exec(buf, &rec, Ghost(c));
        }
    }
}

/// Answers one question whose fixed part is `h` (see `class_answer`).
fn class_answer_exec(
    caches: &mut Cache,
    buf: &mut AnsBuf,
    name: &str,
    qtype: u16,
    qclass: u16,
    is_arpa: u16,
    addr: Option<AllAddr>,
    nameoffset: u16,
    opts: u32,
    mxname: &str,
    mxtarget: &str,
    now: Time,
    local_ttl: u32,
    Ghost(h): Ghost<crate::extract::RrHead>,
    Ghost(ctx): Ghost<AnsCtx>,
) -> (ok: bool)
    requires
        old(caches).wf(),
        now.wf(),
        now.secs <= i64::MAX as u64,
        ctx == ctx_of(opts, mxname, mxtarget, now, local_ttl),
        h.name == name@,
        h.qtype == qtype,
        h.qclass == qclass,
        !(class_answer(st_of(old(caches)@, *old(buf)), h, is_arpa, addr, nameoffset, ctx) is Panic),
    ensures
        final(caches).wf(),
        ok ==> class_answer(st_of(old(caches)@, *old(buf)), h, is_arpa, addr, nameoffset, ctx) == AStep::Next(st_of(final(caches)@, *final(buf))),
        !ok ==> class_answer(st_of(old(caches)@, *old(buf)), h, is_arpa, addr, nameoffset, ctx) == AStep::Refuse(final(caches)@),
{
    reveal(class_answer);
    if qclass == C_CHAOS {
        if qtype == T_TXT {
            let rec: Vec<u8> = chaos_exec(name, nameoffset);
            let auth: bool = buf.auth;
            let ghost c = caches@;
            return add_checked_exec(buf, &rec, auth, Ghost(c));
        }
        return false;
    }
    if qclass != C_IN {
        return false;
    }
    if opts & OPT_FILTER != 0 && (qtype == T_SOA || qtype == T_SRV) {
        buf.ans = true;
    }
    if qtype == T_PTR || qtype == T_ANY {
        if !ptr_part_exec(caches, buf, addr, is_arpa, qtype, nameoffset, opts, now, local_ttl, Ghost(ctx)) {
            return false;
        }
    }
    if qtype == T_A || qtype == T_ANY {
        if !a_part_exec(caches, buf, name, qtype, false, nameoffset, opts, now, local_ttl, Ghost(ctx)) {
            return false;
        }
    }
    if qtype == T_AAAA || qtype == T_ANY {
        if !a_part_exec(caches, buf, name, qtype, true, nameoffset, opts, now, local_ttl, Ghost(ctx)) {
            return false;
        }
    }
    if qtype == T_MX || qtype == T_ANY {
        mx_part_exec(caches, buf, name, nameoffset, opts, mxname, mxtarget, now, local_ttl, Ghost(ctx));
    }
    if qtype == T_MAILB {
        buf.ans = true;
        buf.nx = true;
    }
    true
}

/// One question at `p` (see `q_step`): the bytes it took, or nothing when
/// no reply is given.
fn q_step_exec(
    caches: &mut Cache,
    buf: &mut AnsBuf,
    packet: &[u8],
    p: &mut &[u8],
    se_prev: usize,
    opts: u32,
    mxname: &str,
    mxtarget: &str,
    now: Time,
    local_ttl: u32,
    Ghost(ctx): Ghost<AnsCtx>,
) -> (r: Option<usize>)
    requires
        old(caches).wf(),
        now.wf(),
        now.secs <= i64::MAX as u64,
        ctx == ctx_of(opts, mxname, mxtarget, now, local_ttl),
        !(q_step(packet@, old(p)@, se_prev, st_of(old(caches)@, *old(buf)), ctx) is Panic),
    ensures
        final(caches).wf(),
        r matches Some(se) ==> q_step(packet@, old(p)@, se_prev, st_of(old(caches)@, *old(buf)), ctx) == QStep::Next(
            final(p)@,
            se,
            st_of(final(caches)@, *final(buf)),
        ),
        r is None ==> q_step(packet@, old(p)@, se_prev, st_of(old(caches)@, *old(buf)), ctx) == QStep::Refuse(final(caches)@),
{
    reveal(q_step);
    let nameoffset: u16 = 12 + (se_prev as u16);
    let start_len: usize = p.len();
    let ghost p0 = p@;
    match read_rr(packet, p, false) {
        None => None,
        Some((name, qtype, qclass, _t, _r)) => {
            let ghost h = choose|h: crate::extract::RrHead| spec_read_rr(packet@, p0, 4) == RrRead::Read(h);
            let (is_arpa, addr) = in_arpa_name_2_addr(name.as_str());
            if !class_answer_exec(
                caches,
                buf,
                name.as_str(),
                qtype,
                qclass,
                is_arpa,
                addr,
                nameoffset,
                opts,
                mxname,
                mxtarget,
                now,
                local_ttl,
                Ghost(h),
                Ghost(ctx),
            ) {
                return None;
            }
            if !buf.ans {
                return None;
            }
            Some(start_len - p.len())
        },
    }
}

/// Answers a query from the cache (see `answer_outcome`): the reply, or
/// nothing when the query cannot be answered from the cache alone.
pub fn answer_request(
    packet: &[u8],
    mxname: &str,
    mxtarget: &str,
    options: u32,
    caches: &mut Cache,
    now: Time,
    local_ttl: u32,
) -> (r: Vec<u8>)
    requires
        old(caches).wf(),
        now.wf(),
        now.secs <= i64::MAX as u64,
        !(answer_outcome(old(caches)@, packet@, ctx_of(options, mxname, mxtarget, now, local_ttl)) is Panic),
    ensures
        final(caches).wf(),
        answer_outcome(old(caches)@, packet@, ctx_of(options, mxname, mxtarget, now, local_ttl)) == AnswerOutcome::Done(
            r@,
            final(caches)@,
        ),
{
    let ghost ctx = ctx_of(options, mxname, mxtarget, now, local_ttl);
    let header: Header = header_of(packet);
    if header.qdcount == 0 || header.opcode != QUERY {
        return Vec::new();
    }
    let off: usize = skip_questions(packet);
    if off == 0 {
        return Vec::new();
    }
    let mut buf = AnsBuf { ansp: Vec::new(), anscount: 0, auth: true, nx: false, ans: false };
    let ghost p0 = packet@.subrange(12, packet@.len() as int);
    let ghost st0 = st_of(caches@, buf);
    let mut p: &[u8] = &packet[12..packet.len()];
    let mut se: usize = 0;
    let qd: u16 = header.qdcount;
    let mut i: u16 = 0;
    while i < qd
        invariant
            i <= qd,
            qd == spec_header_of(packet@).qdcount,
            caches.wf(),
            now.wf(),
            now.secs <= i64::MAX as u64,
            ctx == ctx_of(options, mxname, mxtarget, now, local_ttl),
            packet@.len() >= 12,
            spec_header_of(packet@).qdcount != 0,
            spec_header_of(packet@).opcode == QUERY,
            !(spec_skip_questions(packet@) is Panic),
            spec_answer_offset(packet@) != 0,
            off == spec_answer_offset(packet@),
            st0.c == old(caches)@,
            st0 == (AnsState { c: old(caches)@, ansp: seq![], anscount: 0, auth: true, nx: false, ans: false }),
            p0 == packet@.subrange(12, packet@.len() as int),
            q_run(packet@, p0, st0, ctx, i as nat) == QStep::Next(p@, se, st_of(caches@, buf)),
            !(q_run(packet@, p0, st0, ctx, qd as nat) is Panic),
        decreases qd - i,
    {
        proof {
            if !(q_run(packet@, p0, st0, ctx, (i + 1) as nat) is Next) {
                lemma_q_stops(packet@, p0, st0, ctx, (i + 1) as nat, qd as nat);
            }
        }
        match q_step_exec(caches, &mut buf, packet, &mut p, se, options, mxname, mxtarget, now, local_ttl, Ghost(ctx)) {
            None => {
                proof {
                    lemma_q_stops(packet@, p0, st0, ctx, (i + 1) as nat, qd as nat);
                }
                return Vec::new();
            },
            Some(s) => {
                se = s;
            },
        }
        i += 1;
    }
    let mut h: Header = header;
    h.qr = true;
    h.aa = buf.auth;
    h.ra = true;
    h.tc = false;
    h.rcode = if buf.anscount == 0 && buf.nx {
        NXDOMAIN
    } else {
        NOERROR
    };
    h.ancount = buf.anscount;
    h.nscount = 0;
    h.arcount = 0;
    let mut out: Vec<u8> = h.to_bytes();
    proof {
        crate::rfc1035::lemma_answer_offset_ge(packet@);
    }
    extend_bytes(&mut out, &packet[12..off]);
    extend_bytes(&mut out, buf.ansp.as_slice());
    out
}

} // verus!
