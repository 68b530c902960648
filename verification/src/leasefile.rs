//! The lines of the lease file: `expires hwaddr address name clientid`.

use crate::inet::{parse_dec, parse_hex32, parse_ipv4, pieces, spec_parse_dec, spec_parse_hex32, spec_parse_ipv4, split_on, vecs_view};
use crate::confargs::chars_are;
use crate::network::{ws_words, ws_words_exec};
use crate::util::{str_chars, string_from_chars, Time};
use crate::dnsmasq::{opt_str_view, DhcpLease};
use crate::logtext::{append, dec_text, hex2, hex2_exec, hex_char_exec, ipv4_exec, ipv4_text};
use vstd::prelude::*;

verus! {

/// A byte written in hexadecimal, as `u8::from_str_radix(s, 16)` reads it.
pub open spec fn spec_parse_hex8(s: Seq<char>) -> Option<u8> {
    match spec_parse_hex32(s) {
        Some(v) => if v <= 255 {
            Some(v as u8)
        } else {
            None
        },
        None => None,
    }
}

/// The bytes of `n` colon-separated parts, each read as a hexadecimal
/// byte (0 where it does not read); none when there are not `n` parts.
pub open spec fn colon_bytes(t: Seq<char>, n: int) -> Option<Seq<u8>> {
    let p = pieces(t, ':');
    if p.len() == n {
        Some(
            Seq::new(
                n as nat,
                |k: int|
                    match spec_parse_hex8(p[k]) {
                        Some(b) => b,
                        None => 0u8,
                    },
            ),
        )
    } else {
        None
    }
}

/// What one line of the lease file says.
pub enum LeaseLineView {
    /// Not five words: the line is passed over.
    Skip,
    /// The expiry time is not a 64-bit number: reading panics.
    Panic,
    /// The address does not read: reading stops.
    BadAddress,
    /// A lease: when it runs out (0 for never), the hardware address (all
    /// zero unless it has six parts), the address, the name (`*` for
    /// none) and the client id (`*`, or a part count other than four, for
    /// none).
    Lease(u64, Seq<u8>, u32, Option<Seq<char>>, Seq<u8>),
}

pub open spec fn lease_line(line: Seq<char>) -> LeaseLineView {
    let w = ws_words(line);
    if w.len() != 5 {
        LeaseLineView::Skip
    } else {
        match spec_parse_dec(w[0], u64::MAX as int) {
            None => LeaseLineView::Panic,
            Some(ei) => match spec_parse_ipv4(w[2]) {
                None => LeaseLineView::BadAddress,
                Some(addr) => {
                    let hw = match colon_bytes(w[1], 6) {
                        Some(b) => b,
                        None => seq![0u8, 0u8, 0u8, 0u8, 0u8, 0u8],
                    };
                    let name = if w[3] == "*"@ {
                        None
                    } else {
                        Some(w[3])
                    };
                    let clid = if w[4] == "*"@ {
                        seq![]
                    } else {
                        match colon_bytes(w[4], 4) {
                            Some(b) => b,
                            None => seq![],
                        }
                    };
                    LeaseLineView::Lease(ei as u64, hw, addr, name, clid)
                },
            },
        }
    }
}

/// One line of the lease file, read.
pub enum LeaseLine {
    Skip,
    Panic,
    BadAddress,
    Lease { expires: u64, hwaddr: [u8; 6], addr: u32, name: Option<String>, clid: Vec<u8> },
}

pub open spec fn lease_line_is(r: LeaseLine, v: LeaseLineView) -> bool {
    match v {
        LeaseLineView::Skip => r is Skip,
        LeaseLineView::Panic => r is Panic,
        LeaseLineView::BadAddress => r is BadAddress,
        LeaseLineView::Lease(e, hw, a, n, c) => match r {
            LeaseLine::Lease { expires, hwaddr, addr, name, clid } => expires == e && hwaddr@ == hw && addr == a && (
            match name {
                Some(s) => n == Some(s@),
                None => n is None,
            }) && clid@ == c,
            _ => false,
        },
    }
}

fn parse_hex8(s: &[char]) -> (r: Option<u8>)
    ensures
        r == spec_parse_hex8(s@),
{
    match parse_hex32(s) {
        Some(v) => if v <= 255 {
            Some(v as u8)
        } else {
            None
        },
        None => None,
    }
}

fn colon_bytes_exec(t: &[char], n: usize) -> (r: Option<Vec<u8>>)
    ensures
        match colon_bytes(t@, n as int) {
            Some(b) => r matches Some(v) && v@ == b,
            None => r is None,
        },
{
    let p = split_on(t, ':');
    let ghost ps = pieces(t@, ':');
    assert(vecs_view(p@) == ps);
    assert(p@.len() == ps.len());
    if p.len() != n {
        return None;
    }
    let mut out: Vec<u8> = Vec::new();
    let mut k: usize = 0;
    while k < n
        invariant
            k <= n,
            p@.len() == n,
            vecs_view(p@) == ps,
            out@ == Seq::new(
                k as nat,
                |j: int|
                    match spec_parse_hex8(ps[j]) {
                        Some(b) => b,
                        None => 0u8,
                    },
            ),
        decreases n - k,
    {
        assert(p@[k as int]@ == ps[k as int]);
        let b: u8 = match parse_hex8(p[k].as_slice()) {
            Some(b) => b,
            None => 0,
        };
        out.push(b);
        assert(out@ =~= Seq::new(
            (k + 1) as nat,
            |j: int|
                match spec_parse_hex8(ps[j]) {
                    Some(b) => b,
                    None => 0u8,
                },
        ));
        k += 1;
    }
    Some(out)
}

/// Reads one line of the lease file (see `lease_line`).
pub fn read_lease_line(line: &str) -> (r: LeaseLine)
    ensures
        lease_line_is(r, lease_line(line@)),
{
    let chars = str_chars(line);
    let w = ws_words_exec(chars.as_slice());
    let ghost wv = ws_words(line@);
    assert(vecs_view(w@) == wv);
    assert(w@.len() == wv.len());
    if w.len() != 5 {
        return LeaseLine::Skip;
    }
    assert(w@[0]@ == wv[0]);
    assert(w@[1]@ == wv[1]);
    assert(w@[2]@ == wv[2]);
    assert(w@[3]@ == wv[3]);
    assert(w@[4]@ == wv[4]);
    let ei: u64 = match parse_dec(w[0].as_slice(), u64::MAX) {
        None => {
            return LeaseLine::Panic;
        },
        Some(e) => e,
    };
    let addr: u32 = match parse_ipv4(w[2].as_slice()) {
        None => {
            return LeaseLine::BadAddress;
        },
        Some(a) => a,
    };
    let mut hwaddr: [u8; 6] = [0u8; 6];
    match colon_bytes_exec(w[1].as_slice(), 6) {
        Some(b) => {
            hwaddr = [b[0], b[1], b[2], b[3], b[4], b[5]];
            assert(hwaddr@ =~= b@);
        },
        None => {
            assert(hwaddr@ =~= seq![0u8, 0u8, 0u8, 0u8, 0u8, 0u8]);
        },
    }
    let name: Option<String> = if chars_are(w[3].as_slice(), "*") {
        None
    } else {
        Some(string_from_chars(w[3].as_slice()))
    };
    let clid: Vec<u8> = if chars_are(w[4].as_slice(), "*") {
        Vec::new()
    } else {
        match colon_bytes_exec(w[4].as_slice(), 4) {
            Some(b) => b,
            None => Vec::new(),
        }
    };
    LeaseLine::Lease { expires: ei, hwaddr, addr, name, clid }
}

/// Whether a lease read from the file has run out at `now`: one that
/// never runs out (0) has not; another has once a whole second has passed
/// since it ran out.
pub fn lease_run_out(expires: u64, now: Time) -> (b: bool)
    ensures
        b == (expires != 0 && now.secs > expires),
{
    expires != 0 && now.secs > expires
}

/// Bytes in two-digit lowercase hexadecimal, separated by colons.
pub open spec fn hex_join(b: Seq<u8>) -> Seq<char>
    decreases b.len(),
{
    if b.len() == 0 {
        seq![]
    } else if b.len() == 1 {
        hex2(b[0])
    } else {
        hex_join(b.drop_last()) + seq![':'] + hex2(b.last())
    }
}

fn hex_join_exec(out: &mut Vec<char>, b: &[u8])
    ensures
        final(out)@ == old(out)@ + hex_join(b@),
{
    let mut k: usize = 0;
    assert(b@.take(0) =~= Seq::<u8>::empty());
    while k < b.len()
        invariant
            k <= b@.len(),
            out@ == old(out)@ + hex_join(b@.take(k as int)),
        decreases b.len() - k,
    {
        if k > 0 {
            out.push(':');
        }
        hex2_exec(out, b[k]);
        let ghost t = b@.take(k + 1);
        assert(t.drop_last() =~= b@.take(k as int));
        assert(t.last() == b@[k as int]);
        assert(out@ =~= old(out)@ + hex_join(t));
        k += 1;
    }
    assert(b@.take(b@.len() as int) =~= b@);
}

fn dec_u64(out: &mut Vec<char>, n: u64)
    ensures
        final(out)@ == old(out)@ + dec_text(n as nat),
    decreases n,
{
    if n < 10 {
        out.push(hex_char_exec(n as u8));
        assert(out@ =~= old(out)@ + dec_text(n as nat));
    } else {
        dec_u64(out, n / 10);
        out.push(hex_char_exec((n % 10) as u8));
        assert(out@ =~= old(out)@ + dec_text(n as nat));
    }
}

/// The line of the lease file for a lease: when it runs out in seconds,
/// its hardware address, its address, its name (`*` for none) and its
/// client id (`*` for none), separated by spaces and ended by a newline.
pub open spec fn lease_file_line(secs: u64, hw: Seq<u8>, addr: u32, name: Option<Seq<char>>, clid_len: usize, clid: Seq<u8>) -> Seq<char> {
    dec_text(secs as nat) + seq![' '] + hex_join(hw) + seq![' '] + ipv4_text(addr) + seq![' '] + (match name {
        Some(n) => n,
        None => seq!['*'],
    }) + seq![' '] + (if clid_len > 0 {
        hex_join(clid)
    } else {
        seq!['*']
    }) + seq!['\n']
}

/// The line of the lease file for a lease (see `lease_file_line`).
pub fn lease_line_text(l: &DhcpLease) -> (s: String)
    ensures
        s@ == lease_file_line(l.expires.secs, l.hwaddr@, l.addr, opt_str_view(l.hostname), l.clid_len, l.clid@),
{
    let mut out: Vec<char> = Vec::new();
    dec_u64(&mut out, l.expires.secs);
    out.push(' ');
    hex_join_exec(&mut out, &l.hwaddr);
    out.push(' ');
    ipv4_exec(&mut out, l.addr);
    out.push(' ');
    match &l.hostname {
        Some(n) => append(&mut out, n.as_str()),
        None => out.push('*'),
    }
    out.push(' ');
    if l.clid_len > 0 {
        hex_join_exec(&mut out, l.clid.as_slice());
    } else {
        out.push('*');
    }
    out.push('\n');
    assert(out@ =~= lease_file_line(l.expires.secs, l.hwaddr@, l.addr, opt_str_view(l.hostname), l.clid_len, l.clid@));
    string_from_chars(out.as_slice())
}

} // verus!
