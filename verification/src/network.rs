//! Choices about the machine's interfaces and the upstream servers: which
//! DHCP ranges an interface address serves, and which servers are kept.

use crate::config::{contexts_view, copy_string, is_white, lines_view, servers_view};
use crate::confargs::{chars_are, ServerView};
use crate::inet::{parse_ip, spec_parse_ip, vecs_view};
use crate::util::{spec_is_whitespace, str_chars};
use crate::confargs::ContextView;
use crate::dnsmasq::{
    AllAddr, DhcpContext, MySockAddr, Server, ServerFd, NAMESERVER_PORT, SERV_FROM_RESOLV, SERV_LITERAL_ADDRESS, SERV_NO_ADDR,
};
use vstd::prelude::*;

verus! {

// ---------------------------------------------------------------------
// DHCP ranges and interfaces
// ---------------------------------------------------------------------

/// A DHCP range is served on an interface address when the range has no
/// interface yet and both its ends lie in the address's network.
pub open spec fn ctx_matches(c: ContextView, addr: u32, mask: u32) -> bool {
    &&& c.iface.len() == 0
    &&& (c.start & mask) == (addr & mask)
    &&& (c.end & mask) == (addr & mask)
}

/// A range after seeing interface `name` (index `index`) with IPv4 address
/// `addr`, netmask `mask` and broadcast address `bcast`: a loopback or
/// point-to-point interface serves no range; otherwise a range that the
/// address's network holds takes the interface, its index and addresses.
pub open spec fn ctx_after(
    c: ContextView,
    name: Seq<char>,
    index: u32,
    addr: u32,
    mask: u32,
    bcast: u32,
    loopback: bool,
    p2p: bool,
) -> ContextView {
    if !loopback && !p2p && ctx_matches(c, addr, mask) {
        ContextView { ifindex: index, serv_addr: addr, netmask: mask, broadcast: bcast, iface: name, ..c }
    } else {
        c
    }
}

/// Gives each DHCP range that an interface address serves the interface
/// (see `ctx_after`); the other ranges are left as they are.
pub fn match_contexts(
    ctxs: &mut Vec<DhcpContext>,
    name: &String,
    index: u32,
    addr: u32,
    mask: u32,
    bcast: u32,
    loopback: bool,
    p2p: bool,
)
    ensures
        contexts_view(final(ctxs)@) == contexts_view(old(ctxs)@).map_values(
            |c: ContextView| ctx_after(c, name@, index, addr, mask, bcast, loopback, p2p),
        ),
{
    let ghost o = contexts_view(ctxs@);
    let mut i: usize = 0;
    while i < ctxs.len()
        invariant
            i <= ctxs@.len(),
            ctxs@.len() == o.len(),
            forall|k: int| 0 <= k < i ==> #[trigger] contexts_view(ctxs@)[k] == ctx_after(o[k], name@, index, addr, mask, bcast, loopback, p2p),
            forall|k: int| i <= k < ctxs@.len() ==> #[trigger] contexts_view(ctxs@)[k] == o[k],
        decreases ctxs@.len() - i,
    {
        assert(contexts_view(ctxs@)[i as int] == ctxs@[i as int]@);
        let empty: bool = ctxs[i].iface.as_str().is_empty();
        assert(empty == (o[i as int].iface.len() == 0));
        let hit: bool = !loopback && !p2p && empty && (ctxs[i].start & mask) == (addr & mask) && (
        ctxs[i].end & mask) == (addr & mask);
        assert(hit == (!loopback && !p2p && ctx_matches(o[i as int], addr, mask)));
        if hit {
            let c = DhcpContext {
                fd_socket: ctxs[i].fd_socket,
                rawfd: ctxs[i].rawfd,
                ifindex: index,
                iface: copy_string(name),
                hwaddr: ctxs[i].hwaddr,
                lease_time: ctxs[i].lease_time,
                serv_addr: addr,
                netmask: mask,
                broadcast: bcast,
                start: ctxs[i].start,
                end: ctxs[i].end,
                last: ctxs[i].last,
            };
            let ghost before = ctxs@;
            assert(c@ == ctx_after(o[i as int], name@, index, addr, mask, bcast, loopback, p2p));
            ctxs.set(i, c);
            assert(contexts_view(ctxs@) =~= contexts_view(before).update(i as int, c@));
        } else {
            assert(ctx_after(o[i as int], name@, index, addr, mask, bcast, loopback, p2p) == o[i as int]);
        }
        i += 1;
    }
    assert(contexts_view(ctxs@) =~= o.map_values(
        |c: ContextView| ctx_after(c, name@, index, addr, mask, bcast, loopback, p2p),
    ));
}

// ---------------------------------------------------------------------
// Upstream servers
// ---------------------------------------------------------------------

/// A server that is checked: one with an address to send to.
pub open spec fn is_checked(s: Server) -> bool {
    s.flags & (SERV_LITERAL_ADDRESS | SERV_NO_ADDR) == 0
}

/// A checked server that is not at a local address and has no socket yet
/// needs one made for it.
pub open spec fn spec_wants_socket(s: Server, listeners: Seq<MySockAddr>) -> bool {
    is_checked(s) && !listeners.contains(s.addr) && s.sfd is None
}

/// The socket made for server `i`, if any.
pub open spec fn sock_at(socks: Seq<Option<ServerFd>>, i: int) -> Option<ServerFd> {
    if 0 <= i < socks.len() {
        socks[i]
    } else {
        None
    }
}

/// What becomes of one server: an unchecked server is kept as it is; a
/// checked one at a local address is dropped; one with a socket is kept;
/// one without takes the socket made for it, and is dropped where none
/// could be made.
pub open spec fn server_kept(s: Server, listeners: Seq<MySockAddr>, sock: Option<ServerFd>) -> Option<Server> {
    if !is_checked(s) {
        Some(s)
    } else if listeners.contains(s.addr) {
        None
    } else if s.sfd is Some {
        Some(s)
    } else {
        match sock {
            Some(fd) => Some(Server { sfd: Some(fd), ..s }),
            None => None,
        }
    }
}

/// The servers kept of the first `n`, last first.
pub open spec fn servers_kept(
    new: Seq<Server>,
    listeners: Seq<MySockAddr>,
    socks: Seq<Option<ServerFd>>,
    n: int,
) -> Seq<Server>
    decreases n,
{
    if n <= 0 {
        Seq::empty()
    } else {
        let rest = servers_kept(new, listeners, socks, n - 1);
        match server_kept(new[n - 1], listeners, sock_at(socks, n - 1)) {
            Some(x) => seq![x] + rest,
            None => rest,
        }
    }
}

/// Whether `a` is one of the addresses listened on.
pub fn is_local_addr(listeners: &Vec<MySockAddr>, a: MySockAddr) -> (b: bool)
    ensures
        b == listeners@.contains(a),
{
    let mut i: usize = 0;
    while i < listeners.len()
        invariant
            i <= listeners@.len(),
            forall|k: int| 0 <= k < i ==> listeners@[k] != a,
        decreases listeners@.len() - i,
    {
        if listeners[i] == a {
            assert(listeners@[i as int] == a);
            return true;
        }
        i += 1;
    }
    false
}

/// Whether a socket has to be made for server `s` before it can be used.
pub fn wants_socket(s: &Server, listeners: &Vec<MySockAddr>) -> (b: bool)
    ensures
        b == spec_wants_socket(*s, listeners@),
{
    s.flags & (SERV_LITERAL_ADDRESS | SERV_NO_ADDR) == 0 && !is_local_addr(listeners, s.addr) && s.sfd.is_none()
}

/// The servers to use out of `new`, given the addresses listened on and,
/// for each server, the socket made for it (see `server_kept`); the list
/// comes back in reverse order.
pub fn select_servers(new: Vec<Server>, listeners: &Vec<MySockAddr>, socks: &Vec<Option<ServerFd>>) -> (r: Vec<Server>)
    ensures
        r@ == servers_kept(new@, listeners@, socks@, new@.len() as int),
{
    let ghost orig = new@;
    let mut new = new;
    let mut ret: Vec<Server> = Vec::new();
    assert(ret@ + servers_kept(orig, listeners@, socks@, orig.len() as int) =~= servers_kept(orig, listeners@, socks@, orig.len() as int));
    while new.len() > 0
        invariant
            new@ == orig.take(new@.len() as int),
            new@.len() <= orig.len(),
            ret@ + servers_kept(orig, listeners@, socks@, new@.len() as int) == servers_kept(orig, listeners@, socks@, orig.len() as int),
        decreases new@.len(),
    {
        let k: usize = new.len() - 1;
        let s: Server = new.pop().unwrap();
        assert(s == orig[k as int]);
        let ghost rest = servers_kept(orig, listeners@, socks@, k as int);
        let sock: Option<ServerFd> = if k < socks.len() {
            socks[k]
        } else {
            None
        };
        assert(sock == sock_at(socks@, k as int));
        let checked: bool = s.flags & (SERV_LITERAL_ADDRESS | SERV_NO_ADDR) == 0;
        let ghost r0 = ret@;
        if !checked {
            ret.push(s);
        } else if is_local_addr(listeners, s.addr) {
        } else if s.sfd.is_some() {
            ret.push(s);
        } else {
            match sock {
                Some(fd) => {
                    ret.push(Server { addr: s.addr, source_addr: s.source_addr, sfd: Some(fd), domain: s.domain, flags: s.flags });
                },
                None => {},
            }
        }
        assert(new@ =~= orig.take(k as int));
        proof {
            match server_kept(orig[k as int], listeners@, sock_at(socks@, k as int)) {
                Some(x) => {
                    assert(ret@ == r0.push(x));
                    assert(ret@ + rest =~= r0 + (seq![x] + rest));
                },
                None => {
                    assert(ret@ == r0);
                },
            }
        }
    }
    ret
}

// ---------------------------------------------------------------------
// Files of upstream servers
// ---------------------------------------------------------------------

/// Splitting the first `n` characters at white space: the words finished
/// and the one being read.
pub open spec fn ws_acc(s: Seq<char>, n: int) -> (Seq<Seq<char>>, Seq<char>)
    decreases n,
{
    if n <= 0 || n > s.len() {
        (seq![], seq![])
    } else {
        let (ws, cur) = ws_acc(s, n - 1);
        if spec_is_whitespace(s[n - 1]) {
            if cur.len() > 0 {
                (ws.push(cur), seq![])
            } else {
                (ws, cur)
            }
        } else {
            (ws, cur.push(s[n - 1]))
        }
    }
}

/// The words of a line, as `str::split_whitespace` gives them.
pub open spec fn ws_words(s: Seq<char>) -> Seq<Seq<char>> {
    let (ws, cur) = ws_acc(s, s.len() as int);
    if cur.len() > 0 {
        ws.push(cur)
    } else {
        ws
    }
}

pub fn ws_words_exec(s: &[char]) -> (r: Vec<Vec<char>>)
    ensures
        vecs_view(r@) == ws_words(s@),
{
    let mut ws: Vec<Vec<char>> = Vec::new();
    let mut cur: Vec<char> = Vec::new();
    let mut i: usize = 0;
    while i < s.len()
        invariant
            i <= s@.len(),
            ws_acc(s@, i as int) == (vecs_view(ws@), cur@),
        decreases s.len() - i,
    {
        let c = s[i];
        if is_white(c) {
            if cur.len() > 0 {
                let ghost before = vecs_view(ws@);
                let ghost cv = cur@;
                ws.push(cur);
                assert(vecs_view(ws@) =~= before.push(cv));
                cur = Vec::new();
            }
        } else {
            cur.push(c);
        }
        i += 1;
    }
    if cur.len() > 0 {
        let ghost before = vecs_view(ws@);
        let ghost cv = cur@;
        ws.push(cur);
        assert(vecs_view(ws@) =~= before.push(cv));
    }
    ws
}

/// The server a line of a file of upstream servers names: a line whose
/// first word is `nameserver` and whose second word is an address; it is
/// asked on the name server port, from the unspecified address of its
/// family on the query port.
pub open spec fn resolv_line_server(line: Seq<char>, qp: u16) -> Option<ServerView> {
    let w = ws_words(line);
    if w.len() >= 2 && w[0] == "nameserver"@ {
        match spec_parse_ip(w[1]) {
            Some(ip) => Some(
                ServerView {
                    addr: MySockAddr { ip, port: NAMESERVER_PORT },
                    source_addr: MySockAddr {
                        ip: match ip {
                            AllAddr::V4(_) => AllAddr::V4(0),
                            AllAddr::V6(_) => AllAddr::V6(0),
                        },
                        port: qp,
                    },
                    sfd: None,
                    domain: seq![],
                    flags: SERV_FROM_RESOLV,
                },
            ),
            None => None,
        }
    } else {
        None
    }
}

/// The first `n` servers that were not read from a file, last first.
pub open spec fn keep_configured(s: Seq<ServerView>, n: int) -> Seq<ServerView>
    decreases n,
{
    if n <= 0 || n > s.len() {
        seq![]
    } else {
        let r = keep_configured(s, n - 1);
        if s[n - 1].flags & SERV_FROM_RESOLV == 0 {
            seq![s[n - 1]] + r
        } else {
            r
        }
    }
}

/// The servers the first `n` lines name, each put in front of `acc`.
pub open spec fn resolv_read(lines: Seq<Seq<char>>, n: int, qp: u16, acc: Seq<ServerView>) -> Seq<ServerView>
    decreases n,
{
    if n <= 0 || n > lines.len() {
        acc
    } else {
        let r = resolv_read(lines, n - 1, qp, acc);
        match resolv_line_server(lines[n - 1], qp) {
            Some(sv) => seq![sv] + r,
            None => r,
        }
    }
}

/// Re-reads a file of upstream servers (its `lines`; none where it cannot
/// be read): the servers not read from a file are kept, last first, and
/// each line naming a server puts it in front (see `resolv_line_server`).
pub fn reload_resolv(servers: Vec<Server>, lines: &Vec<String>, query_port: u16) -> (r: Vec<Server>)
    ensures
        servers_view(r@) == resolv_read(
            lines_view(lines@),
            lines@.len() as int,
            query_port,
            keep_configured(servers_view(servers@), servers@.len() as int),
        ),
{
    let ghost sv = servers_view(servers@);
    let n0: usize = servers.len();
    let mut rest = servers;
    let mut out: Vec<Server> = Vec::new();
    let mut k: usize = 0;
    while rest.len() > 0
        invariant
            k + rest@.len() == n0,
            sv.len() == n0,
            servers_view(rest@) == sv.skip(k as int),
            servers_view(out@) == keep_configured(sv, k as int),
        decreases rest@.len(),
    {
        let ghost r0 = rest@;
        assert(servers_view(r0)[0] == r0[0]@);
        assert(sv.skip(k as int)[0] == sv[k as int]);
        let s = rest.remove(0);
        assert(s@ == sv[k as int]);
        assert(rest@ =~= r0.skip(1));
        assert forall|j: int| 0 <= j < rest@.len() implies #[trigger] servers_view(rest@)[j] == sv.skip(k + 1)[j] by {
            assert(servers_view(rest@)[j] == r0[j + 1]@);
            assert(servers_view(r0)[j + 1] == r0[j + 1]@);
            assert(sv.skip(k as int)[j + 1] == sv[k + 1 + j]);
        }
        assert(servers_view(rest@) =~= sv.skip(k + 1));
        if s.flags & SERV_FROM_RESOLV == 0 {
            let ghost before = servers_view(out@);
            let ghost x = s@;
            out.insert(0, s);
            assert(servers_view(out@) =~= seq![x] + before);
        }
        k += 1;
    }
    let ghost lv = lines_view(lines@);
    let ghost acc = servers_view(out@);
    let mut i: usize = 0;
    while i < lines.len()
        invariant
            i <= lines@.len(),
            lv == lines_view(lines@),
            servers_view(out@) == resolv_read(lv, i as int, query_port, acc),
        decreases lines.len() - i,
    {
        let chars = str_chars(lines[i].as_str());
        assert(chars@ == lv[i as int]);
        let w = ws_words_exec(chars.as_slice());
        assert(vecs_view(w@).len() == w@.len());
        if w.len() >= 2 && chars_are(w[0].as_slice(), "nameserver") {
            assert(w@[1]@ == ws_words(lv[i as int])[1]);
            match parse_ip(w[1].as_slice()) {
                Some(ip) => {
                    let any = match ip {
                        AllAddr::V4(_) => AllAddr::V4(0),
                        AllAddr::V6(_) => AllAddr::V6(0),
                    };
                    let s = Server {
                        addr: MySockAddr { ip, port: NAMESERVER_PORT },
                        source_addr: MySockAddr { ip: any, port: query_port },
                        sfd: None,
                        domain: String::new(),
                        flags: SERV_FROM_RESOLV,
                    };
                    let ghost before = servers_view(out@);
                    let ghost x = s@;
                    assert(x.domain =~= Seq::<char>::empty());
                    out.insert(0, s);
                    assert(servers_view(out@) =~= seq![x] + before);
                },
                None => {},
            }
        }
        i += 1;
    }
    out
}

} // verus!
