//! The texts logged about queries, cache records and DHCP packets.

use crate::cache::CacheRec;
use crate::config::HOSTSFILE;
use crate::dnsmasq::{
    AllAddr, F_ADDN, F_CONFIG, F_DHCP, F_FORWARD, F_HOSTS, F_IMMORTAL, F_IPV4, F_IPV6, F_NEG, F_NXDOMAIN, F_QUERY,
    F_REVERSE, F_SERVER, F_UPSTREAM,
};
use crate::util::{str_chars, string_from_chars};
use vstd::prelude::*;

verus! {

// ---------------------------------------------------------------------
// Pieces of text
// ---------------------------------------------------------------------

/// The decimal digit `d`.
pub open spec fn digit_char(d: int) -> char {
    if d == 0 {
        '0'
    } else if d == 1 {
        '1'
    } else if d == 2 {
        '2'
    } else if d == 3 {
        '3'
    } else if d == 4 {
        '4'
    } else if d == 5 {
        '5'
    } else if d == 6 {
        '6'
    } else if d == 7 {
        '7'
    } else if d == 8 {
        '8'
    } else {
        '9'
    }
}

/// The decimal text of `n`, without leading zeros.
pub open spec fn dec_text(n: nat) -> Seq<char>
    decreases n,
{
    if n < 10 {
        seq![digit_char(n as int)]
    } else {
        dec_text(n / 10).push(digit_char((n % 10) as int))
    }
}

/// The lowercase hexadecimal digit `d`.
pub open spec fn hex_char(d: int) -> char {
    if d < 10 {
        digit_char(d)
    } else if d == 10 {
        'a'
    } else if d == 11 {
        'b'
    } else if d == 12 {
        'c'
    } else if d == 13 {
        'd'
    } else if d == 14 {
        'e'
    } else {
        'f'
    }
}

pub(crate) fn hex_char_exec(d: u8) -> (c: char)
    requires
        d < 16,
    ensures
        c == hex_char(d as int),
{
    if d == 0 {
        '0'
    } else if d == 1 {
        '1'
    } else if d == 2 {
        '2'
    } else if d == 3 {
        '3'
    } else if d == 4 {
        '4'
    } else if d == 5 {
        '5'
    } else if d == 6 {
        '6'
    } else if d == 7 {
        '7'
    } else if d == 8 {
        '8'
    } else if d == 9 {
        '9'
    } else if d == 10 {
        'a'
    } else if d == 11 {
        'b'
    } else if d == 12 {
        'c'
    } else if d == 13 {
        'd'
    } else if d == 14 {
        'e'
    } else {
        'f'
    }
}

/// A byte as two lowercase hexadecimal digits.
pub open spec fn hex2(b: u8) -> Seq<char> {
    seq![hex_char(b as int / 16), hex_char(b as int % 16)]
}

/// The decimal text of a byte.
fn dec_u8(out: &mut Vec<char>, n: u8)
    ensures
        final(out)@ == old(out)@ + dec_text(n as nat),
{
    if n < 10 {
        out.push(hex_char_exec(n));
    } else if n < 100 {
        let t: u8 = n / 10;
        let o: u8 = n % 10;
        assert(dec_text((n / 10) as nat) == seq![digit_char(t as int)]);
        out.push(hex_char_exec(t));
        out.push(hex_char_exec(o));
    } else {
        let h: u8 = n / 100;
        let t: u8 = (n / 10) % 10;
        let o: u8 = n % 10;
        assert(dec_text((n / 100) as nat) == seq![digit_char(h as int)]);
        assert((n / 10) as nat / 10 == n as nat / 100);
        assert(dec_text((n / 10) as nat) == seq![digit_char(h as int), digit_char(t as int)]);
        out.push(hex_char_exec(h));
        out.push(hex_char_exec(t));
        out.push(hex_char_exec(o));
    }
}

pub(crate) fn append(out: &mut Vec<char>, s: &str)
    ensures
        final(out)@ == old(out)@ + s@,
{
    let v = str_chars(s);
    let mut i: usize = 0;
    while i < v.len()
        invariant
            i <= v@.len(),
            v@ == s@,
            out@ == old(out)@ + v@.take(i as int),
        decreases v.len() - i,
    {
        out.push(v[i]);
        assert(v@.take(i + 1) =~= v@.take(i as int).push(v@[i as int]));
        assert(out@ =~= old(out)@ + v@.take(i + 1));
        i += 1;
    }
    assert(v@.take(v@.len() as int) =~= v@);
}

/// The dotted-quad text of an IPv4 address.
pub open spec fn ipv4_text(a: u32) -> Seq<char> {
    dec_text((a / 16777216) as nat) + seq!['.'] + dec_text(((a / 65536) % 256) as nat) + seq!['.'] + dec_text(
        ((a / 256) % 256) as nat,
    ) + seq!['.'] + dec_text((a % 256) as nat)
}

pub(crate) fn ipv4_exec(out: &mut Vec<char>, a: u32)
    ensures
        final(out)@ == old(out)@ + ipv4_text(a),
{
    dec_u8(out, (a / 16777216) as u8);
    out.push('.');
    dec_u8(out, ((a / 65536) % 256) as u8);
    out.push('.');
    dec_u8(out, ((a / 256) % 256) as u8);
    out.push('.');
    dec_u8(out, (a % 256) as u8);
    assert(out@ =~= old(out)@ + ipv4_text(a));
}

/// The hexadecimal text (lowercase, without leading zeros) of `n`.
pub open spec fn hex_text(n: nat) -> Seq<char>
    decreases n,
{
    if n < 16 {
        seq![hex_char(n as int)]
    } else {
        hex_text(n / 16).push(hex_char((n % 16) as int))
    }
}

fn hex_u16(out: &mut Vec<char>, n: u16)
    ensures
        final(out)@ == old(out)@ + hex_text(n as nat),
{
    let d0: u16 = n % 16;
    let d1: u16 = (n / 16) % 16;
    let d2: u16 = (n / 256) % 16;
    let d3: u16 = n / 4096;
    assert(d3 < 16) by (nonlinear_arith)
        requires
            d3 == n / 4096,
            n < 65536,
    ;
    if n < 16 {
        out.push(hex_char_exec(n as u8));
    } else if n < 256 {
        assert(hex_text((n / 16) as nat) == seq![hex_char(d1 as int)]);
        out.push(hex_char_exec(d1 as u8));
        out.push(hex_char_exec(d0 as u8));
    } else if n < 4096 {
        assert(hex_text((n / 256) as nat) == seq![hex_char(d2 as int)]);
        assert((n / 16) as nat / 16 == n as nat / 256);
        assert(hex_text((n / 16) as nat) == seq![hex_char(d2 as int), hex_char(d1 as int)]);
        out.push(hex_char_exec(d2 as u8));
        out.push(hex_char_exec(d1 as u8));
        out.push(hex_char_exec(d0 as u8));
    } else {
        assert(hex_text((n / 4096) as nat) == seq![hex_char(d3 as int)]);
        assert((n / 256) as nat / 16 == n as nat / 4096);
        assert((n / 256) % 16 == d2);
        assert(hex_text((n / 256) as nat) == seq![hex_char(d3 as int), hex_char(d2 as int)]);
        assert((n / 16) as nat / 16 == n as nat / 256);
        assert(hex_text((n / 16) as nat) == seq![hex_char(d3 as int), hex_char(d2 as int), hex_char(d1 as int)]);
        out.push(hex_char_exec(d3 as u8));
        out.push(hex_char_exec(d2 as u8));
        out.push(hex_char_exec(d1 as u8));
        out.push(hex_char_exec(d0 as u8));
    }
    assert(out@ =~= old(out)@ + hex_text(n as nat));
}

/// The eight 16-bit groups of an IPv6 address, the first the highest.
pub open spec fn group_of(a: u128, i: int) -> u16 {
    ((a >> (((7 - i) * 16) as u128)) & 0xffff) as u16
}

pub open spec fn groups(a: u128) -> Seq<u16> {
    Seq::new(8, |i: int| group_of(a, i))
}

/// Scanning the first `n` groups for runs of zeros: the run being read
/// (start, length) and the first longest run so far (start, length).
pub open spec fn zero_span(g: Seq<u16>, n: int) -> (int, int, int, int)
    decreases n,
{
    if n <= 0 || n > g.len() {
        (0, 0, 0, 0)
    } else {
        let (cs, cl, bs, bl) = zero_span(g, n - 1);
        if g[n - 1] == 0 {
            let cs2 = if cl == 0 {
                n - 1
            } else {
                cs
            };
            if cl + 1 > bl {
                (cs2, cl + 1, cs2, cl + 1)
            } else {
                (cs2, cl + 1, bs, bl)
            }
        } else {
            (0, 0, bs, bl)
        }
    }
}

/// The groups in hexadecimal, separated by colons.
pub open spec fn join_hex(gs: Seq<u16>) -> Seq<char>
    decreases gs.len(),
{
    if gs.len() == 0 {
        seq![]
    } else if gs.len() == 1 {
        hex_text(gs[0] as nat)
    } else {
        join_hex(gs.drop_last()) + seq![':'] + hex_text(gs.last() as nat)
    }
}

/// The text form of an IPv6 address (RFC 5952): an address that maps an
/// IPv4 one is `::ffff:` and that address; otherwise the groups in
/// hexadecimal, the first longest run of two or more zero groups written
/// as `::`.
pub open spec fn ipv6_text(a: u128) -> Seq<char> {
    let g = groups(a);
    if g[0] == 0 && g[1] == 0 && g[2] == 0 && g[3] == 0 && g[4] == 0 && g[5] == 0xffff {
        "::ffff:"@ + ipv4_text((a & 0xffff_ffff) as u32)
    } else {
        let (cs, cl, bs, bl) = zero_span(g, 8);
        if bl > 1 {
            join_hex(g.take(bs)) + "::"@ + join_hex(g.skip(bs + bl))
        } else {
            join_hex(g)
        }
    }
}

fn join_hex_exec(out: &mut Vec<char>, g: &Vec<u16>, lo: usize, hi: usize)
    requires
        lo <= hi <= g@.len(),
    ensures
        final(out)@ == old(out)@ + join_hex(g@.subrange(lo as int, hi as int)),
{
    let mut k: usize = lo;
    assert(g@.subrange(lo as int, lo as int) =~= Seq::<u16>::empty());
    while k < hi
        invariant
            lo <= k <= hi <= g@.len(),
            out@ == old(out)@ + join_hex(g@.subrange(lo as int, k as int)),
        decreases hi - k,
    {
        let ghost before = out@;
        if k > lo {
            out.push(':');
        }
        hex_u16(out, g[k]);
        let ghost sub = g@.subrange(lo as int, k + 1);
        assert(sub.drop_last() =~= g@.subrange(lo as int, k as int));
        assert(sub.last() == g@[k as int]);
        if k == lo {
            assert(sub.len() == 1);
            assert(out@ =~= old(out)@ + join_hex(sub));
        } else {
            assert(out@ =~= old(out)@ + join_hex(sub));
        }
        k += 1;
    }
}

fn ipv6_exec(out: &mut Vec<char>, a: u128)
    ensures
        final(out)@ == old(out)@ + ipv6_text(a),
{
    let mut g: Vec<u16> = Vec::new();
    let mut i: usize = 0;
    while i < 8
        invariant
            i <= 8,
            g@ == groups(a).take(i as int),
        decreases 8 - i,
    {
        let x: u16 = ((a >> (((7 - i) * 16) as u128)) & 0xffff) as u16;
        g.push(x);
        assert(g@ =~= groups(a).take(i + 1));
        i += 1;
    }
    assert(g@ =~= groups(a));
    if g[0] == 0 && g[1] == 0 && g[2] == 0 && g[3] == 0 && g[4] == 0 && g[5] == 0xffff {
        append(out, "::ffff:");
        ipv4_exec(out, (a & 0xffff_ffff) as u32);
        return;
    }
    let mut cs: usize = 0;
    let mut cl: usize = 0;
    let mut bs: usize = 0;
    let mut bl: usize = 0;
    let mut j: usize = 0;
    while j < 8
        invariant
            j <= 8,
            g@ == groups(a),
            zero_span(g@, j as int) == (cs as int, cl as int, bs as int, bl as int),
            cs + cl <= j,
            bs + bl <= j,
        decreases 8 - j,
    {
        if g[j] == 0 {
            if cl == 0 {
                cs = j;
            }
            cl = cl + 1;
            if cl > bl {
                bs = cs;
                bl = cl;
            }
        } else {
            cs = 0;
            cl = 0;
        }
        j += 1;
    }
    if bl > 1 {
        join_hex_exec(out, &g, 0, bs);
        append(out, "::");
        join_hex_exec(out, &g, bs + bl, 8);
        assert(g@.subrange(0, bs as int) =~= g@.take(bs as int));
        assert(g@.subrange((bs + bl) as int, 8) =~= g@.skip((bs + bl) as int));
    } else {
        join_hex_exec(out, &g, 0, 8);
        assert(g@.subrange(0, 8) =~= g@);
    }
}

/// The text of an address of either family.
pub open spec fn addr_text(a: AllAddr) -> Seq<char> {
    match a {
        AllAddr::V4(x) => ipv4_text(x),
        AllAddr::V6(x) => ipv6_text(x),
    }
}

fn addr_exec(out: &mut Vec<char>, a: AllAddr)
    ensures
        final(out)@ == old(out)@ + addr_text(a),
{
    match a {
        AllAddr::V4(x) => ipv4_exec(out, x),
        AllAddr::V6(x) => ipv6_exec(out, x),
    }
}

// ---------------------------------------------------------------------
// Queries
// ---------------------------------------------------------------------

/// Where a logged answer comes from, and the verb before its address.
pub open spec fn query_source(flags: u16, addn_file: Seq<char>) -> (Seq<char>, Seq<char>) {
    if flags & F_DHCP != 0 {
        ("DHCP"@, "is"@)
    } else if flags & F_HOSTS != 0 {
        (if flags & F_ADDN != 0 {
            addn_file
        } else {
            HOSTSFILE@
        }, "is"@)
    } else if flags & F_CONFIG != 0 {
        ("config"@, "is"@)
    } else if flags & F_UPSTREAM != 0 {
        ("reply"@, "is"@)
    } else if flags & F_SERVER != 0 {
        ("forwarded"@, "to"@)
    } else if flags & F_QUERY != 0 {
        ("query"@, "from"@)
    } else {
        ("cached"@, "is"@)
    }
}

/// A query log needs the address: unless the record is negative and not
/// a reverse one.
pub open spec fn query_needs_addr(flags: u16) -> bool {
    flags & F_NEG == 0 || flags & F_REVERSE != 0
}

/// The line logged about a name and its address (`addn_file` being the
/// additional hosts file): `source name verb address` for a forward or
/// negative record, `source address is name` for a reverse one, nothing
/// otherwise.  A negative record shows `<NXDOMAIN>-` or `<NODATA>-` and
/// the family in place of the address, and a negative reverse one its
/// address in place of the name.
pub open spec fn query_log(flags: u16, name: Seq<char>, addr: Option<AllAddr>, addn_file: Seq<char>) -> Option<Seq<char>> {
    let (source, verb) = query_source(flags, addn_file);
    let (shown_name, shown_addr) = if flags & F_NEG != 0 {
        (
            if flags & F_REVERSE != 0 {
                addr_text(addr->0)
            } else {
                name
            },
            (if flags & F_NXDOMAIN != 0 {
                "<NXDOMAIN>-"@
            } else {
                "<NODATA>-"@
            }) + (if flags & F_IPV4 != 0 {
                "IPv4"@
            } else {
                "IPv6"@
            }),
        )
    } else {
        (name, addr_text(addr->0))
    };
    if flags & F_FORWARD != 0 || flags & F_NEG != 0 {
        Some(source + seq![' '] + shown_name + seq![' '] + verb + seq![' '] + shown_addr)
    } else if flags & F_REVERSE != 0 {
        Some(source + seq![' '] + shown_addr + " is "@ + shown_name)
    } else {
        None
    }
}

/// The line to log about a name and its address (see `query_log`).
pub fn query_log_text(flags: u16, name: &str, addr: Option<AllAddr>, addn_file: &str) -> (r: Option<String>)
    requires
        query_needs_addr(flags) ==> addr is Some,
    ensures
        match query_log(flags, name@, addr, addn_file@) {
            Some(t) => r matches Some(s) && s@ == t,
            None => r is None,
        },
{
    if !(flags & F_FORWARD != 0 || flags & F_NEG != 0 || flags & F_REVERSE != 0) {
        return None;
    }
    let mut source: Vec<char> = Vec::new();
    let mut verb: Vec<char> = Vec::new();
    if flags & F_DHCP != 0 {
        append(&mut source, "DHCP");
        append(&mut verb, "is");
    } else if flags & F_HOSTS != 0 {
        if flags & F_ADDN != 0 {
            append(&mut source, addn_file);
        } else {
            append(&mut source, HOSTSFILE);
        }
        append(&mut verb, "is");
    } else if flags & F_CONFIG != 0 {
        append(&mut source, "config");
        append(&mut verb, "is");
    } else if flags & F_UPSTREAM != 0 {
        append(&mut source, "reply");
        append(&mut verb, "is");
    } else if flags & F_SERVER != 0 {
        append(&mut source, "forwarded");
        append(&mut verb, "to");
    } else if flags & F_QUERY != 0 {
        append(&mut source, "query");
        append(&mut verb, "from");
    } else {
        append(&mut source, "cached");
        append(&mut verb, "is");
    }
    assert(source@ =~= Seq::<char>::empty() + source@);
    let ghost sv = query_source(flags, addn_file@);
    assert(source@ == sv.0 && verb@ == sv.1);
    let mut shown_name: Vec<char> = Vec::new();
    let mut shown_addr: Vec<char> = Vec::new();
    if flags & F_NEG != 0 {
        if flags & F_REVERSE != 0 {
            addr_exec(&mut shown_name, addr.unwrap());
        } else {
            append(&mut shown_name, name);
        }
        if flags & F_NXDOMAIN != 0 {
            append(&mut shown_addr, "<NXDOMAIN>-");
        } else {
            append(&mut shown_addr, "<NODATA>-");
        }
        if flags & F_IPV4 != 0 {
            append(&mut shown_addr, "IPv4");
        } else {
            append(&mut shown_addr, "IPv6");
        }
    } else {
        append(&mut shown_name, name);
        addr_exec(&mut shown_addr, addr.unwrap());
    }
    let mut out: Vec<char> = Vec::new();
    let ghost so = source@;
    let ghost vo = verb@;
    let ghost no = shown_name@;
    let ghost ao = shown_addr@;
    if flags & F_FORWARD != 0 || flags & F_NEG != 0 {
        append_chars(&mut out, &source);
        out.push(' ');
        append_chars(&mut out, &shown_name);
        out.push(' ');
        append_chars(&mut out, &verb);
        out.push(' ');
        append_chars(&mut out, &shown_addr);
        assert(out@ =~= so + seq![' '] + no + seq![' '] + vo + seq![' '] + ao);
    } else {
        append_chars(&mut out, &source);
        out.push(' ');
        append_chars(&mut out, &shown_addr);
        append(&mut out, " is ");
        append_chars(&mut out, &shown_name);
        assert(out@ =~= so + seq![' '] + ao + " is "@ + no);
    }
    Some(string_from_chars(out.as_slice()))
}

pub(crate) fn append_chars(out: &mut Vec<char>, s: &Vec<char>)
    ensures
        final(out)@ == old(out)@ + s@,
{
    let mut i: usize = 0;
    while i < s.len()
        invariant
            i <= s@.len(),
            out@ == old(out)@ + s@.take(i as int),
        decreases s.len() - i,
    {
        out.push(s[i]);
        assert(s@.take(i + 1) =~= s@.take(i as int).push(s@[i as int]));
        assert(out@ =~= old(out)@ + s@.take(i + 1));
        i += 1;
    }
    assert(s@.take(s@.len() as int) =~= s@);
}

// ---------------------------------------------------------------------
// Cache records and DHCP packets
// ---------------------------------------------------------------------

/// The text padded with spaces on the right to `w` characters.
pub open spec fn pad(s: Seq<char>, w: nat) -> Seq<char> {
    if s.len() >= w {
        s
    } else {
        s + Seq::new((w - s.len()) as nat, |i: int| ' ')
    }
}

fn pad_exec(out: &mut Vec<char>, s: &Vec<char>, w: usize)
    ensures
        final(out)@ == old(out)@ + pad(s@, w as nat),
{
    append_chars(out, s);
    let mut k: usize = s.len();
    let ghost base = out@;
    while k < w
        invariant
            s@.len() <= k <= w || (k == s@.len() && k >= w),
            out@ == base + Seq::new((k - s@.len()) as nat, |i: int| ' '),
        decreases w - k,
    {
        out.push(' ');
        assert(out@ =~= base + Seq::new((k + 1 - s@.len()) as nat, |i: int| ' '));
        k += 1;
    }
    if s.len() >= w {
        assert(out@ =~= base);
    }
}

/// The letter `c` where the flag `m` is set, else a space.
pub open spec fn letter(f: u16, m: u16, c: char) -> char {
    if f & m != 0 {
        c
    } else {
        ' '
    }
}

fn letter_exec(f: u16, m: u16, c: char) -> (r: char)
    ensures
        r == letter(f, m, c),
{
    if f & m != 0 {
        c
    } else {
        ' '
    }
}

/// `4` and `6` for the families a record is of.
pub open spec fn family_letters(f: u16) -> Seq<char> {
    (if f & F_IPV4 != 0 {
        seq!['4']
    } else {
        seq![]
    }) + (if f & F_IPV6 != 0 {
        seq!['6']
    } else {
        seq![]
    })
}

/// The letters that show a record's flags, in their columns.
pub open spec fn flag_letters(f: u16) -> Seq<char> {
    family_letters(f) + seq![
        letter(f, F_FORWARD, 'F'),
        letter(f, F_REVERSE, 'R'),
        letter(f, F_IMMORTAL, 'I'),
        letter(f, F_DHCP, 'D'),
        letter(f, F_NEG, 'N'),
        letter(f, F_NXDOMAIN, 'H'),
        letter(f, F_HOSTS, 'X'),
        letter(f, F_ADDN, 'A'),
    ]
}

fn flag_letters_exec(out: &mut Vec<char>, f: u16)
    ensures
        final(out)@ == old(out)@ + flag_letters(f),
{
    if f & F_IPV4 != 0 {
        out.push('4');
    }
    if f & F_IPV6 != 0 {
        out.push('6');
    }
    assert(out@ =~= old(out)@ + family_letters(f));
    let ghost mid = out@;
    let c1 = letter_exec(f, F_FORWARD, 'F');
    let c2 = letter_exec(f, F_REVERSE, 'R');
    let c3 = letter_exec(f, F_IMMORTAL, 'I');
    let c4 = letter_exec(f, F_DHCP, 'D');
    let c5 = letter_exec(f, F_NEG, 'N');
    let c6 = letter_exec(f, F_NXDOMAIN, 'H');
    let c7 = letter_exec(f, F_HOSTS, 'X');
    let c8 = letter_exec(f, F_ADDN, 'A');
    out.push(c1);
    out.push(c2);
    out.push(c3);
    out.push(c4);
    out.push(c5);
    out.push(c6);
    out.push(c7);
    out.push(c8);
    assert(out@ =~= mid + seq![c1, c2, c3, c4, c5, c6, c7, c8]);
}

/// A record of the cache listing needs its address: unless it is a
/// negative forward one.
pub open spec fn dump_needs_addr(f: u16) -> bool {
    !(f & F_NEG != 0 && f & F_FORWARD != 0)
}

/// Whether a record of the cache listing needs its address (see
/// `dump_needs_addr`).
pub fn needs_addr_exec(f: u16) -> (b: bool)
    ensures
        b == dump_needs_addr(f),
{
    !(f & F_NEG != 0 && f & F_FORWARD != 0)
}

/// The line that lists a cache record, up to its expiry time: its name in
/// forty columns, its address (none for a negative forward record) in
/// thirty, its flag letters and a space.
pub open spec fn dump_line(name: Seq<char>, flags: u16, addr: Option<AllAddr>) -> Seq<char> {
    let a = if dump_needs_addr(flags) {
        addr_text(addr->0)
    } else {
        seq![]
    };
    pad(name, 40) + seq![' '] + pad(a, 30) + seq![' '] + flag_letters(flags) + seq![' ']
}

/// The line listing a cache record, up to its expiry time (see
/// `dump_line`).
pub fn dump_line_text(r: &CacheRec) -> (s: String)
    requires
        dump_needs_addr(r.crec.flags) ==> r.crec.addr is Some,
    ensures
        s@ == dump_line(r.crec.name@, r.crec.flags, r.crec.addr),
{
    let f: u16 = r.crec.flags;
    let name: Vec<char> = str_chars(r.crec.name.as_str());
    let mut a: Vec<char> = Vec::new();
    if !(f & F_NEG != 0 && f & F_FORWARD != 0) {
        addr_exec(&mut a, r.crec.addr.unwrap());
    }
    assert(a@ =~= (if dump_needs_addr(f) { addr_text(r.crec.addr->0) } else { seq![] }));
    let mut out: Vec<char> = Vec::new();
    pad_exec(&mut out, &name, 40);
    out.push(' ');
    pad_exec(&mut out, &a, 30);
    out.push(' ');
    flag_letters_exec(&mut out, f);
    out.push(' ');
    assert(out@ =~= dump_line(name@, f, r.crec.addr));
    string_from_chars(out.as_slice())
}

/// The line that logs a DHCP packet: `DHCP` and its kind, the interface in
/// brackets, the address after a space unless it is unspecified, and the
/// hardware address in hexadecimal.
pub open spec fn packet_log(kind: Seq<char>, addr: u32, hw: Seq<u8>, iface: Seq<char>) -> Seq<char> {
    "DHCP"@ + kind + seq!['('] + iface + seq![')'] + (if addr == 0 {
        seq![]
    } else {
        seq![' '] + ipv4_text(addr)
    }) + " hwaddr="@ + hex2(hw[0]) + seq![':'] + hex2(hw[1]) + seq![':'] + hex2(hw[2]) + seq![':'] + hex2(hw[3])
        + seq![':'] + hex2(hw[4]) + seq![':'] + hex2(hw[5])
}

pub(crate) fn hex2_exec(out: &mut Vec<char>, b: u8)
    ensures
        final(out)@ == old(out)@ + hex2(b),
{
    out.push(hex_char_exec(b / 16));
    out.push(hex_char_exec(b % 16));
    assert(out@ =~= old(out)@ + hex2(b));
}

/// The line logging a DHCP packet (see `packet_log`).
pub fn packet_log_text(kind: &str, addr: u32, hwaddr: &[u8; 6], iface: &str) -> (s: String)
    ensures
        s@ == packet_log(kind@, addr, hwaddr@, iface@),
{
    let mut out: Vec<char> = Vec::new();
    append(&mut out, "DHCP");
    append(&mut out, kind);
    out.push('(');
    append(&mut out, iface);
    out.push(')');
    if addr != 0 {
        out.push(' ');
        ipv4_exec(&mut out, addr);
    }
    append(&mut out, " hwaddr=");
    let ghost mid = out@;
    hex2_exec(&mut out, hwaddr[0]);
    out.push(':');
    hex2_exec(&mut out, hwaddr[1]);
    out.push(':');
    hex2_exec(&mut out, hwaddr[2]);
    out.push(':');
    hex2_exec(&mut out, hwaddr[3]);
    out.push(':');
    hex2_exec(&mut out, hwaddr[4]);
    out.push(':');
    hex2_exec(&mut out, hwaddr[5]);
    assert(out@ =~= packet_log(kind@, addr, hwaddr@, iface@));
    string_from_chars(out.as_slice())
}

} // verus!
