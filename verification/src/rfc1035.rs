//! RFC 1035 message handling: reading names (with compression pointers
//! and binary labels), skipping the question section, building answer
//! records and replies.

use crate::dnsmasq::{
    spec_header_bytes, spec_header_of, AllAddr, Header, C_IN, F_IPV4, F_IPV6, F_NEG, F_NOERR,
    F_NXDOMAIN, F_QUERY, MAXDNAME, NOERROR, NXDOMAIN, QUERY, REFUSED, SERVFAIL, T_A, T_AAAA, T_ANY,
};
use crate::util::{
    be16_bytes, be16_value, be32_bytes, extend_bytes, get_short, legal_char, put_long, put_short,
    spec_legal_char, string_from_chars,
};
use vstd::prelude::*;
use vstd::string::StringSliceAdditionalSpecFns;

verus! {

pub const INADDRSZ: u16 = 4;
pub const IN6ADDRSZ: u16 = 16;

// ---------------------------------------------------------------------
// Reading a name
// ---------------------------------------------------------------------

/// How reading a name ends.
pub enum NameOutcome {
    /// The reader would index past the end of a buffer.
    Panic,
    /// The name is malformed: the reader gives the empty string.
    Fail,
    /// The name, and the offset in the caller's slice just past it (past
    /// the first compression pointer when there is one).
    Done(Seq<char>, int),
}

/// The reader's state between two labels.
pub struct NameState {
    pub pos: int,
    pub p1: int,
    pub hops: int,
    pub name: Seq<char>,
}

pub enum NameStep {
    Next(NameState),
    Stop(NameOutcome),
}

/// Labels are read from the caller's slice until the first compression
/// pointer, and from the whole packet after it.
pub open spec fn name_source(packet: Seq<u8>, date: Seq<u8>, hops: int) -> Seq<u8> {
    if hops != 0 {
        packet
    } else {
        date
    }
}

/// How scanning the `n` characters of a label from `pos` ends.
pub enum LabelScan {
    Panic,
    Illegal,
    Legal,
}

pub open spec fn scan_label(src: Seq<u8>, pos: int, n: int) -> LabelScan
    decreases n,
{
    if n <= 0 {
        LabelScan::Legal
    } else if !(0 <= pos < src.len()) {
        LabelScan::Panic
    } else if !spec_legal_char(src[pos] as char) {
        LabelScan::Illegal
    } else {
        scan_label(src, pos + 1, n - 1)
    }
}

proof fn lemma_scan_legal_bounds(src: Seq<u8>, pos: int, n: int)
    requires
        scan_label(src, pos, n) is Legal,
        n > 0,
    ensures
        0 <= pos,
        pos + n <= src.len(),
    decreases n,
{
    if n > 1 {
        lemma_scan_legal_bounds(src, pos + 1, n - 1);
    }
}

/// The characters of the `n` bytes of `src` from `pos`.
pub open spec fn bytes_as_chars(src: Seq<u8>, pos: int, n: int) -> Seq<char> {
    Seq::new(n as nat, |k: int| src[pos + k] as char)
}

/// The character of a hexadecimal digit, in upper case.
pub open spec fn hex_char(d: u8) -> char {
    if d < 10 {
        (d + '0' as u8) as char
    } else {
        (d + 'A' as u8 - 10) as char
    }
}

/// The hexadecimal digits of a binary label: `digs` nibbles, high nibble
/// first, of the bytes of `src` from `pos`.
pub open spec fn elt_digits(src: Seq<u8>, pos: int, digs: int) -> Seq<char> {
    Seq::new(
        digs as nat,
        |j: int|
            hex_char(
                if j % 2 == 0 {
                    src[pos + j / 2] >> 4u8
                } else {
                    src[pos + j / 2] & 0x0fu8
                },
            ),
    )
}

/// The decimal digits of `n`.
pub open spec fn decimal_chars(n: nat) -> Seq<char>
    decreases n,
{
    if n < 10 {
        seq![(n + '0' as nat) as char]
    } else {
        decimal_chars(n / 10) + seq![((n % 10) + '0' as nat) as char]
    }
}

/// One step of the binary (extended) label reader, `l` being the type
/// byte just read and `pos` the offset after it.  Note that the count and
/// the bits are read from the caller's slice whatever the hop count.
pub open spec fn elt_step(packet: Seq<u8>, date: Seq<u8>, st: NameState, l: u8, pos: int) -> NameStep {
    let plen = packet.len() as int;
    if (l & 0x3fu8) != 1 {
        NameStep::Stop(NameOutcome::Fail)
    } else if !(0 <= pos < date.len()) {
        NameStep::Stop(NameOutcome::Panic)
    } else {
        let count: int = if date[pos] == 0 {
            256
        } else {
            date[pos] as int
        };
        let bpos = pos + 1;
        let digs = (count - 1) / 4 + 1;
        if st.name.len() + digs + 9 >= MAXDNAME {
            NameStep::Stop(NameOutcome::Fail)
        } else if bpos + (count - 1) / 8 + 1 >= plen {
            NameStep::Stop(NameOutcome::Fail)
        } else if bpos + (digs - 1) / 2 >= date.len() {
            NameStep::Stop(NameOutcome::Panic)
        } else {
            let name2 = st.name + seq!['\\', '[', 'x'] + elt_digits(date, bpos, digs) + seq!['/']
                + decimal_chars(count as nat) + seq![']', '.'];
            let pos2 = bpos + digs / 2;
            if pos2 > plen {
                NameStep::Stop(NameOutcome::Fail)
            } else {
                NameStep::Next(NameState { pos: pos2, p1: st.p1, hops: st.hops, name: name2 })
            }
        }
    }
}

/// The final zero byte: the name ends.  A name with no label at all is
/// the root, read as `.`.
pub open spec fn end_step(date: Seq<u8>, st: NameState, pos: int) -> NameStep {
    let name = if st.name.len() == 0 {
        seq!['.', '.']
    } else {
        st.name
    };
    let rest = if st.p1 != 0 {
        st.p1
    } else {
        pos
    };
    if rest > date.len() {
        NameStep::Stop(NameOutcome::Panic)
    } else {
        NameStep::Stop(NameOutcome::Done(name.drop_last(), rest))
    }
}

/// A compression pointer: reading goes on at the offset it gives.
pub open spec fn pointer_step(packet: Seq<u8>, date: Seq<u8>, st: NameState, l: u8, pos: int) -> NameStep {
    let src = name_source(packet, date, st.hops);
    let plen = packet.len() as int;
    if pos + 1 > plen {
        NameStep::Stop(NameOutcome::Fail)
    } else if !(0 <= pos < src.len()) {
        NameStep::Stop(NameOutcome::Panic)
    } else {
        let target = (l & 0x3fu8) as int * 256 + src[pos] as int;
        let pos2 = pos + 1;
        if target > plen {
            NameStep::Stop(NameOutcome::Fail)
        } else if st.hops + 1 > 255 {
            NameStep::Stop(NameOutcome::Fail)
        } else {
            NameStep::Next(
                NameState {
                    pos: target,
                    p1: if st.p1 == 0 {
                        pos2
                    } else {
                        st.p1
                    },
                    hops: st.hops + 1,
                    name: st.name,
                },
            )
        }
    }
}

/// A plain label of `l` characters.
pub open spec fn label_step(packet: Seq<u8>, date: Seq<u8>, st: NameState, l: u8, pos: int) -> NameStep {
    let src = name_source(packet, date, st.hops);
    let plen = packet.len() as int;
    if st.name.len() > MAXDNAME {
        NameStep::Stop(NameOutcome::Fail)
    } else if pos > plen {
        NameStep::Stop(NameOutcome::Fail)
    } else {
        match scan_label(src, pos, l as int) {
            LabelScan::Panic => NameStep::Stop(NameOutcome::Panic),
            LabelScan::Illegal => NameStep::Stop(NameOutcome::Fail),
            LabelScan::Legal => {
                let pos2 = pos + l as int;
                if pos2 > plen {
                    NameStep::Stop(NameOutcome::Fail)
                } else {
                    NameStep::Next(
                        NameState {
                            pos: pos2,
                            p1: st.p1,
                            hops: st.hops,
                            name: st.name + bytes_as_chars(src, pos, l as int) + seq!['.'],
                        },
                    )
                }
            },
        }
    }
}

/// One step of the name reader: one label, pointer or the final zero.
pub open spec fn name_step(packet: Seq<u8>, date: Seq<u8>, st: NameState) -> NameStep {
    let src = name_source(packet, date, st.hops);
    if !(0 <= st.pos < src.len()) {
        NameStep::Stop(NameOutcome::Panic)
    } else {
        let l = src[st.pos];
        let pos = st.pos + 1;
        if l == 0 {
            end_step(date, st, pos)
        } else if (l & 0xc0u8) == 0xc0u8 {
            pointer_step(packet, date, st, l, pos)
        } else if (l & 0xc0u8) == 0x80u8 {
            NameStep::Stop(NameOutcome::Fail)
        } else if (l & 0xc0u8) == 0x40u8 {
            elt_step(packet, date, st, l, pos)
        } else {
            label_step(packet, date, st, l, pos)
        }
    }
}

/// Whether moving from `st` to `st2` makes progress: one more hop, or
/// further along the same stretch of bytes.
pub open spec fn name_progress(packet: Seq<u8>, st: NameState, st2: NameState) -> bool {
    ||| (0 <= st.hops < st2.hops <= 256)
    ||| (0 <= st.hops && st2.hops == st.hops && 0 <= st.pos < st2.pos <= packet.len() + 1)
}

/// The outcome of reading a name from state `st` on.
pub open spec fn name_run(packet: Seq<u8>, date: Seq<u8>, st: NameState) -> NameOutcome
    decreases 256 - st.hops, packet.len() + 1 - st.pos,
{
    match name_step(packet, date, st) {
        NameStep::Stop(o) => o,
        NameStep::Next(st2) => if name_progress(packet, st, st2) {
            name_run(packet, date, st2)
        } else {
            NameOutcome::Fail
        },
    }
}

/// The outcome of reading the name at the start of `date`, compression
/// pointers being offsets into `packet`.
pub open spec fn spec_extract_name(packet: Seq<u8>, date: Seq<u8>) -> NameOutcome {
    name_run(packet, date, NameState { pos: 0, p1: 0, hops: 0, name: seq![] })
}

/// A state the reader can be in: hops within bounds and the position not
/// past the packet.
pub open spec fn name_state_ok(packet: Seq<u8>, st: NameState) -> bool {
    &&& 0 <= st.hops <= 255
    &&& 0 <= st.pos <= packet.len()
    &&& 0 <= st.p1
}

proof fn lemma_name_step_progress(packet: Seq<u8>, date: Seq<u8>, st: NameState)
    requires
        name_state_ok(packet, st),
    ensures
        name_step(packet, date, st) matches NameStep::Next(st2) ==> name_progress(packet, st, st2)
            && name_state_ok(packet, st2),
{
}

proof fn lemma_decimal_chars_len(n: nat)
    requires
        n < 1000,
    ensures
        decimal_chars(n).len() <= 3,
{
    if n >= 100 {
        assert(decimal_chars(n / 10 / 10).len() == 1);
        assert(decimal_chars(n / 10).len() == 2);
    } else if n >= 10 {
        assert(decimal_chars(n / 10).len() == 1);
    }
}

/// Appends the decimal digits of `n`.
pub fn push_decimal(v: &mut Vec<char>, n: u64)
    ensures
        final(v)@ == old(v)@ + decimal_chars(n as nat),
    decreases n,
{
    if n >= 10 {
        push_decimal(v, n / 10);
    }
    let d: u8 = (n % 10) as u8;
    let c: char = (d + 48u8) as char;
    v.push(c);
    proof {
        assert(c == ((n as nat % 10) + '0' as nat) as char);
        if n >= 10 {
            assert(decimal_chars(n as nat) == decimal_chars((n / 10) as nat) + seq![c]);
        } else {
            assert(decimal_chars(n as nat) == seq![c]);
        }
    }
}

fn push_chars(v: &mut Vec<char>, s: &[char])
    ensures
        final(v)@ == old(v)@ + s@,
{
    let ghost start = v@;
    let mut i: usize = 0;
    while i < s.len()
        invariant
            i <= s.len(),
            v@ == start + s@.take(i as int),
        decreases s.len() - i,
    {
        v.push(s[i]);
        i += 1;
        assert(s@.take(i as int) =~= s@.take(i - 1) + seq![s@[i - 1]]);
    }
    assert(s@.take(s.len() as int) =~= s@);
}

fn hex_digit(d: u8) -> (c: char)
    requires
        d < 16,
    ensures
        c == hex_char(d),
{
    if d < 10 {
        (d + 48u8) as char
    } else {
        (d + 55u8) as char
    }
}

/// Reads the label characters of a plain label.
fn read_label(src: &[u8], pos: usize, n: usize, name: &mut Vec<char>) -> (ok: bool)
    requires
        scan_label(src@, pos as int, n as int) !is Panic,
    ensures
        ok == (scan_label(src@, pos as int, n as int) is Legal),
        ok ==> final(name)@ == old(name)@ + bytes_as_chars(src@, pos as int, n as int),
{
    let ghost start = name@;
    let slen: usize = src.len();
    let mut i: usize = 0;
    assert(bytes_as_chars(src@, pos as int, 0) =~= Seq::<char>::empty());
    while i < n
        invariant
            i <= n,
            scan_label(src@, pos as int, n as int) == scan_label(src@, pos + i, n - i),
            scan_label(src@, pos as int, n as int) !is Panic,
            slen == src@.len(),
            name@ == start + bytes_as_chars(src@, pos as int, i as int),
        decreases n - i,
    {
        assert(scan_label(src@, pos + i, n - i) !is Panic);
        assert(0 <= pos + i < src@.len());
        let b: u8 = src[pos + i];
        let c: char = b as char;
        if !legal_char(c) {
            return false;
        }
        name.push(c);
        i += 1;
        assert(bytes_as_chars(src@, pos as int, i as int) =~= bytes_as_chars(
            src@,
            pos as int,
            (i - 1) as int,
        ) + seq![c]);
    }
    true
}

/// Reads a plain label of `l` characters starting at `pos`.
fn label_exec(
    packet: &[u8],
    src: &[u8],
    pos: usize,
    l: u8,
    name: &mut Vec<char>,
    Ghost(date): Ghost<Seq<u8>>,
    Ghost(st): Ghost<NameState>,
) -> (r: Option<usize>)
    requires
        src@ == name_source(packet@, date, st.hops),
        st.name == old(name)@,
        pos == st.pos + 1,
        0 < l < 64,
        !(label_step(packet@, date, st, l, pos as int) matches NameStep::Stop(NameOutcome::Panic)),
    ensures
        r is None ==> label_step(packet@, date, st, l, pos as int) == NameStep::Stop(
            NameOutcome::Fail,
        ),
        r matches Some(p2) ==> label_step(packet@, date, st, l, pos as int) == NameStep::Next(
            NameState { pos: p2 as int, p1: st.p1, hops: st.hops, name: final(name)@ },
        ),
{
    if name.len() > MAXDNAME {
        return None;
    }
    if pos > packet.len() {
        return None;
    }
    let slen: usize = src.len();
    let ok = read_label(src, pos, l as usize, name);
    if !ok {
        return None;
    }
    proof {
        lemma_scan_legal_bounds(src@, pos as int, l as int);
    }
    let pos2: usize = pos + l as usize;
    name.push('.');
    assert(name@ =~= st.name + bytes_as_chars(src@, pos as int, l as int) + seq!['.']);
    if pos2 > packet.len() {
        return None;
    }
    Some(pos2)
}

/// Reads a binary label; `pos` is the offset just past its type byte.
fn elt_exec(
    packet: &[u8],
    d: &[u8],
    pos: usize,
    l: u8,
    name: &mut Vec<char>,
    Ghost(st): Ghost<NameState>,
) -> (r: Option<usize>)
    requires
        st.name == old(name)@,
        old(name)@.len() <= MAXDNAME + 100,
        pos == st.pos + 1,
        !(elt_step(packet@, d@, st, l, pos as int) matches NameStep::Stop(NameOutcome::Panic)),
    ensures
        r is None ==> elt_step(packet@, d@, st, l, pos as int) == NameStep::Stop(
            NameOutcome::Fail,
        ),
        r matches Some(p2) ==> elt_step(packet@, d@, st, l, pos as int) == NameStep::Next(
            NameState { pos: p2 as int, p1: st.p1, hops: st.hops, name: final(name)@ },
        ),
        final(name)@.len() <= MAXDNAME + 100,
{
    let plen: usize = packet.len();
    if (l & 0x3f) != 1 {
        return None;
    }
    let c0: u8 = d[pos];
    let count: usize = if c0 == 0 {
        256
    } else {
        c0 as usize
    };
    let bpos: usize = pos + 1;
    let digs: usize = (count - 1) / 4 + 1;
    if name.len() + digs + 9 >= MAXDNAME {
        return None;
    }
    if bpos >= plen || (count - 1) / 8 + 1 >= plen - bpos {
        return None;
    }
    let ghost name0 = name@;
    name.push('\\');
    name.push('[');
    name.push('x');
    let ghost mid = name@;
    let mut j: usize = 0;
    let mut p: usize = bpos;
    assert(elt_digits(d@, bpos as int, 0) =~= Seq::<char>::empty());
    while j < digs
        invariant
            j <= digs,
            digs == (count - 1) / 4 + 1,
            1 <= count <= 256,
            bpos + (digs - 1) / 2 < d@.len(),
            p == bpos + j / 2,
            name@ == mid + elt_digits(d@, bpos as int, j as int),
        decreases digs - j,
    {
        let byte: u8 = d[p];
        let dig: u8 = if j % 2 == 0 {
            byte >> 4
        } else {
            byte & 0x0f
        };
        assert(dig < 16) by (bit_vector)
            requires
                dig == byte >> 4u8 || dig == byte & 0x0fu8,
        ;
        let c: char = hex_digit(dig);
        name.push(c);
        if j % 2 != 0 {
            p = p + 1;
        }
        j = j + 1;
        assert(elt_digits(d@, bpos as int, j as int) =~= elt_digits(d@, bpos as int, (j - 1) as int)
            + seq![c]);
    }
    name.push('/');
    push_decimal(name, count as u64);
    name.push(']');
    name.push('.');
    proof {
        lemma_decimal_chars_len(count as nat);
        assert(name@ =~= name0 + seq!['\\', '[', 'x'] + elt_digits(d@, bpos as int, digs as int)
            + seq!['/'] + decimal_chars(count as nat) + seq![']', '.']);
    }
    let pos2: usize = bpos + digs / 2;
    if pos2 > plen {
        return None;
    }
    Some(pos2)
}

/// Reads the domain name at the start of `date`.  Compression pointers
/// are offsets into `packet`.  On success `date` is advanced past the
/// name (past the first pointer when there is one); a malformed name
/// gives the empty string and leaves `date` alone.
pub fn extract_name(packet: &[u8], date: &mut &[u8]) -> (name: String)
    requires
        !(spec_extract_name(packet@, old(date)@) is Panic),
    ensures
        spec_extract_name(packet@, old(date)@) is Fail ==> name@ == Seq::<char>::empty()
            && final(date)@ == old(date)@,
        spec_extract_name(packet@, old(date)@) matches NameOutcome::Done(n, rest) ==> name@ == n
            && final(date)@ == old(date)@.subrange(rest, old(date)@.len() as int) && 0 <= rest
            <= old(date)@.len(),
{
    let d: &[u8] = *date;
    let plen: usize = packet.len();
    let mut pos: usize = 0;
    let mut p1: usize = 0;
    let mut hops: usize = 0;
    let mut name: Vec<char> = Vec::new();
    let ghost target = spec_extract_name(packet@, d@);
    loop
        invariant
            d@ == old(date)@,
            *date == d,
            plen == packet@.len(),
            target == spec_extract_name(packet@, d@),
            !(target is Panic),
            name_state_ok(
                packet@,
                NameState { pos: pos as int, p1: p1 as int, hops: hops as int, name: name@ },
            ),
            name_run(
                packet@,
                d@,
                NameState { pos: pos as int, p1: p1 as int, hops: hops as int, name: name@ },
            ) == target,
            name@.len() <= MAXDNAME + 100,
        decreases 256 - hops, plen + 1 - pos,
    {
        let ghost st = NameState { pos: pos as int, p1: p1 as int, hops: hops as int, name: name@ };
        proof {
            lemma_name_step_progress(packet@, d@, st);
        }
        let src: &[u8] = if hops != 0 {
            packet
        } else {
            d
        };
        assert(src@ == name_source(packet@, d@, st.hops));
        let l: u8 = src[pos];
        let pos1: usize = pos + 1;
        if l == 0 {
            if name.len() == 0 {
                name.push('.');
                name.push('.');
            }
            let rest: usize = if p1 != 0 {
                p1
            } else {
                pos1
            };
            name.pop();
            let result = string_from_chars(name.as_slice());
            *date = &d[rest..d.len()];
            return result;
        }
        let label_type: u8 = l & 0xc0;
        if label_type == 0xc0 {
            if pos1 >= plen {
                return String::new();
            }
            let b: u8 = src[pos1];
            let t: usize = (((l & 0x3f) as usize) << 8) | (b as usize);
            assert(t == (l & 0x3fu8) as int * 256 + b as int) by (bit_vector)
                requires
                    t == (((l & 0x3fu8) as usize) << 8) | (b as usize),
            ;
            if t > plen {
                return String::new();
            }
            if p1 == 0 {
                p1 = pos1 + 1;
            }
            if hops + 1 > 255 {
                return String::new();
            }
            hops = hops + 1;
            pos = t;
        } else if label_type == 0x80 {
            return String::new();
        } else if label_type == 0x40 {
            match elt_exec(packet, d, pos1, l, &mut name, Ghost(st)) {
                None => {
                    return String::new();
                },
                Some(p2) => {
                    pos = p2;
                },
            }
        } else {
            assert(0 < l < 64) by (bit_vector)
                requires
                    l != 0,
                    (l & 0xc0u8) != 0xc0u8,
                    (l & 0xc0u8) != 0x80u8,
                    (l & 0xc0u8) != 0x40u8,
            ;
            match label_exec(packet, src, pos1, l, &mut name, Ghost(d@), Ghost(st)) {
                None => {
                    return String::new();
                },
                Some(p2) => {
                    pos = p2;
                },
            }
        }
    }
}


// ---------------------------------------------------------------------
// The question section
// ---------------------------------------------------------------------

/// How skipping one name ends.
pub enum Skip {
    Panic,
    /// The name is malformed: the skipper gives 0.
    Zero,
    /// The offset just after the name.
    At(int),
}

/// Skips the name at offset `ansp` of `packet`, the way the question
/// skipper walks it: a pointer ends the name, a binary label is stepped
/// over by its bit count, and a reserved label type gives 0.
pub open spec fn skip_name(packet: Seq<u8>, ansp: int) -> Skip
    decreases packet.len() + 64 - ansp,
{
    if !(0 <= ansp < packet.len()) {
        Skip::Panic
    } else {
        let b = packet[ansp];
        let label_type = b as int / 64;
        if label_type == 3 {
            Skip::At(ansp + 2)
        } else if label_type == 2 {
            Skip::Zero
        } else if label_type == 1 {
            if b as int % 64 != 1 {
                Skip::Zero
            } else if !(ansp + 1 < packet.len()) {
                Skip::Panic
            } else {
                let count = packet[ansp + 1];
                let next = if count == 0 {
                    ansp + 2 + 32
                } else {
                    ansp + 2 + (count as int - 1) / 8 + 1
                };
                skip_name(packet, next)
            }
        } else {
            let len = b as int % 64;
            if len == 0 {
                Skip::At(ansp + 1)
            } else {
                skip_name(packet, ansp + 1 + len)
            }
        }
    }
}

/// Skips `n` questions (a name, a type and a class each) from `ansp`.
pub open spec fn skip_qs(packet: Seq<u8>, ansp: int, n: nat) -> Skip
    decreases n,
{
    if n == 0 {
        Skip::At(ansp)
    } else {
        match skip_qs(packet, ansp, (n - 1) as nat) {
            Skip::At(a) => match skip_name(packet, a) {
                Skip::At(e) => Skip::At(e + 4),
                other => other,
            },
            other => other,
        }
    }
}

/// What skipping the question section of a message leads to: the header
/// count of questions, skipped from offset 12.
pub open spec fn spec_skip_questions(packet: Seq<u8>) -> Skip {
    if packet.len() < 12 {
        Skip::Panic
    } else {
        skip_qs(packet, 12, spec_header_of(packet).qdcount as nat)
    }
}

/// The offset of the answer section, 0 when the questions are malformed
/// or run past the end.
pub open spec fn spec_answer_offset(packet: Seq<u8>) -> int {
    match spec_skip_questions(packet) {
        Skip::At(a) => if a > packet.len() {
            0
        } else {
            a
        },
        _ => 0,
    }
}

/// Reads the header of a message known to hold one.
pub fn header_of(packet: &[u8]) -> (h: Header)
    requires
        packet@.len() >= 12,
    ensures
        h == spec_header_of(packet@),
{
    match Header::parse(packet) {
        Ok(h) => h,
        Err(_) => Header::new(),
    }
}

proof fn lemma_label_bits(b: u8)
    ensures
        ((b & 0xc0u8) == 0xc0u8) == (b as int / 64 == 3),
        ((b & 0xc0u8) == 0x80u8) == (b as int / 64 == 2),
        ((b & 0xc0u8) == 0x40u8) == (b as int / 64 == 1),
        (b & 0x3fu8) as int == b as int % 64,
{
    assert(((b & 0xc0u8) == 0xc0u8) == (b / 64 == 3) && ((b & 0xc0u8) == 0x80u8) == (b / 64 == 2)
        && ((b & 0xc0u8) == 0x40u8) == (b / 64 == 1) && (b & 0x3fu8) == b % 64) by (bit_vector);
}

fn skip_name_exec(packet: &[u8], start: u128) -> (r: Option<u128>)
    requires
        !(skip_name(packet@, start as int) is Panic),
    ensures
        r is None ==> skip_name(packet@, start as int) is Zero,
        r matches Some(e) ==> skip_name(packet@, start as int) == Skip::At(e as int) && e
            <= packet@.len() + 64,
{
    let len: usize = packet.len();
    let mut ansp: u128 = start;
    loop
        invariant
            skip_name(packet@, ansp as int) == skip_name(packet@, start as int),
            !(skip_name(packet@, start as int) is Panic),
            len == packet@.len(),
        decreases packet@.len() + 64 - ansp,
    {
        assert(ansp < len);
        let b: u8 = packet[ansp as usize];
        proof {
            lemma_label_bits(b);
        }
        let label_type: u8 = b & 0xc0;
        if label_type == 0xc0 {
            return Some(ansp + 2);
        } else if label_type == 0x80 {
            return None;
        } else if label_type == 0x40 {
            if (b & 0x3f) != 1 {
                return None;
            }
            let count: u8 = packet[(ansp + 1) as usize];
            if count == 0 {
                ansp = ansp + 2 + 32;
            } else {
                ansp = ansp + 2 + ((count - 1) / 8) as u128 + 1;
            }
        } else {
            let l: u8 = b & 0x3f;
            if l == 0 {
                return Some(ansp + 1);
            }
            ansp = ansp + 1 + l as u128;
        }
    }
}

/// Skips the question section and gives the offset of what follows it;
/// 0 when a question is malformed or the section runs past the end.
pub fn skip_questions(packet: &[u8]) -> (ansp: usize)
    requires
        !(spec_skip_questions(packet@) is Panic),
    ensures
        ansp == spec_answer_offset(packet@),
{
    let header = header_of(packet);
    let qdcount: u16 = header.qdcount;
    let mut ansp: u128 = 12;
    let mut q: u16 = 0;
    let plen: usize = packet.len();
    while q < qdcount
        invariant
            packet@.len() >= 12,
            plen == packet@.len(),
            ansp <= packet@.len() + 68,
            qdcount == spec_header_of(packet@).qdcount,
            q <= qdcount,
            skip_qs(packet@, 12, q as nat) == Skip::At(ansp as int),
            !(spec_skip_questions(packet@) is Panic),
        decreases qdcount - q,
    {
        proof {
            lemma_skip_qs_prefix(packet@, q as nat, qdcount as nat);
        }
        match skip_name_exec(packet, ansp) {
            None => {
                proof {
                    lemma_skip_qs_zero(packet@, (q + 1) as nat, qdcount as nat);
                }
                return 0;
            },
            Some(e) => {
                ansp = e + 4;
            },
        }
        q = q + 1;
    }
    if ansp > packet.len() as u128 {
        return 0;
    }
    ansp as usize
}

proof fn lemma_skip_name_after(packet: Seq<u8>, ansp: int)
    ensures
        skip_name(packet, ansp) matches Skip::At(e) ==> e > ansp,
    decreases packet.len() + 64 - ansp,
{
    if 0 <= ansp < packet.len() {
        let b = packet[ansp];
        if b as int / 64 == 1 && b as int % 64 == 1 && ansp + 1 < packet.len() {
            let count = packet[ansp + 1];
            let next = if count == 0 {
                ansp + 2 + 32
            } else {
                ansp + 2 + (count as int - 1) / 8 + 1
            };
            lemma_skip_name_after(packet, next);
        } else if b as int / 64 == 0 && b as int % 64 != 0 {
            lemma_skip_name_after(packet, ansp + 1 + b as int % 64);
        }
    }
}

proof fn lemma_skip_qs_at_least(packet: Seq<u8>, n: nat)
    ensures
        skip_qs(packet, 12, n) matches Skip::At(a) ==> a >= 12,
    decreases n,
{
    if n > 0 {
        lemma_skip_qs_at_least(packet, (n - 1) as nat);
        if let Skip::At(a) = skip_qs(packet, 12, (n - 1) as nat) {
            lemma_skip_name_after(packet, a);
        }
    }
}

proof fn lemma_skip_qs_prefix(packet: Seq<u8>, q: nat, n: nat)
    requires
        q < n,
        !(skip_qs(packet, 12, n) is Panic),
        skip_qs(packet, 12, q) is At,
    ensures
        !(skip_name(packet, skip_qs(packet, 12, q)->0) is Panic),
    decreases n,
{
    if q + 1 < n {
        lemma_skip_qs_prefix(packet, q, (n - 1) as nat);
        lemma_skip_qs_not_at(packet, (q + 1) as nat, (n - 1) as nat);
    }
}

proof fn lemma_skip_qs_not_at(packet: Seq<u8>, q: nat, n: nat)
    requires
        q <= n,
        !(skip_qs(packet, 12, n) is Panic),
    ensures
        !(skip_qs(packet, 12, q) is Panic),
        skip_qs(packet, 12, q) is Zero ==> skip_qs(packet, 12, n) is Zero,
    decreases n,
{
    if q < n {
        lemma_skip_qs_not_at(packet, q, (n - 1) as nat);
    }
}

proof fn lemma_skip_qs_zero(packet: Seq<u8>, q: nat, n: nat)
    requires
        q <= n,
        skip_qs(packet, 12, q) is Zero,
    ensures
        skip_qs(packet, 12, n) is Zero,
    decreases n,
{
    if q < n {
        lemma_skip_qs_zero(packet, q, (n - 1) as nat);
    }
}


proof fn lemma_skip_name_ge(packet: Seq<u8>, ansp: int)
    ensures
        skip_name(packet, ansp) matches Skip::At(e) ==> e > ansp,
    decreases packet.len() + 64 - ansp,
{
    if 0 <= ansp < packet.len() {
        let b = packet[ansp];
        let label_type = b as int / 64;
        if label_type == 1 && b as int % 64 == 1 && ansp + 1 < packet.len() {
            let count = packet[ansp + 1];
            let next = if count == 0 {
                ansp + 2 + 32
            } else {
                ansp + 2 + (count as int - 1) / 8 + 1
            };
            lemma_skip_name_ge(packet, next);
        } else if label_type == 0 && b as int % 64 != 0 {
            lemma_skip_name_ge(packet, ansp + 1 + b as int % 64);
        }
    }
}

proof fn lemma_skip_qs_ge(packet: Seq<u8>, ansp: int, n: nat)
    ensures
        skip_qs(packet, ansp, n) matches Skip::At(a) ==> a >= ansp,
    decreases n,
{
    if n > 0 {
        lemma_skip_qs_ge(packet, ansp, (n - 1) as nat);
        match skip_qs(packet, ansp, (n - 1) as nat) {
            Skip::At(a) => lemma_skip_name_ge(packet, a),
            _ => {},
        }
    }
}

/// The answer section, when found, starts after the header.
pub proof fn lemma_answer_offset_ge(packet: Seq<u8>)
    ensures
        spec_answer_offset(packet) != 0 ==> 12 <= spec_answer_offset(packet) <= packet.len(),
{
    if packet.len() >= 12 {
        lemma_skip_qs_ge(packet, 12, spec_header_of(packet).qdcount as nat);
    }
}

// ---------------------------------------------------------------------
// Requests
// ---------------------------------------------------------------------

/// What follows the name at the start of `date`: the rest of `date` after
/// a well-formed name, all of `date` after a malformed one.
pub open spec fn name_rest(packet: Seq<u8>, date: Seq<u8>) -> Seq<u8> {
    match spec_extract_name(packet, date) {
        NameOutcome::Done(_, r) => date.subrange(r, date.len() as int),
        _ => date,
    }
}

/// The name read from the start of `date`, empty when it is malformed.
pub open spec fn name_text(packet: Seq<u8>, date: Seq<u8>) -> Seq<char> {
    match spec_extract_name(packet, date) {
        NameOutcome::Done(n, _) => n,
        _ => seq![],
    }
}

/// The kind of query a type and class ask for.
pub open spec fn query_kind(qtype: u16, qclass: u16) -> u16 {
    if qclass == C_IN && qtype == T_A {
        F_IPV4
    } else if qclass == C_IN && qtype == T_AAAA {
        F_IPV6
    } else if qclass == C_IN && qtype == T_ANY {
        (F_IPV4 | F_IPV6) as u16
    } else {
        F_QUERY
    }
}

/// A message from which a single query can be read without indexing past
/// the end: a header, and after a lone standard query a name followed by
/// a type and a class.
pub open spec fn request_readable(packet: Seq<u8>) -> bool {
    &&& packet.len() >= 12
    &&& (spec_header_of(packet).qdcount == 1 && spec_header_of(packet).opcode == QUERY) ==> {
        &&& !(spec_extract_name(packet, packet.subrange(12, packet.len() as int)) is Panic)
        &&& name_rest(packet, packet.subrange(12, packet.len() as int)).len() >= 4
    }
}

/// Reads the single question of a standard query: its kind (IPv4,
/// IPv6, both, or another query) and its name.  Gives 0 and the empty
/// name unless the message holds exactly one question and is a standard
/// query.
pub fn extract_request(packet: &[u8]) -> (r: (u16, String))
    requires
        request_readable(packet@),
    ensures
        ({
            let h = spec_header_of(packet@);
            let q = packet@.subrange(12, packet@.len() as int);
            let rest = name_rest(packet@, q);
            if h.qdcount != 1 || h.opcode != QUERY {
                r.0 == 0 && r.1@ == Seq::<char>::empty()
            } else {
                &&& r.1@ == name_text(packet@, q)
                &&& r.0 == query_kind(be16_value(rest[0], rest[1]), be16_value(rest[2], rest[3]))
            }
        }),
{
    let mut p: &[u8] = &packet[12..packet.len()];
    let header = header_of(packet);
    if header.qdcount != 1 || header.opcode != QUERY {
        return (0, String::new());
    }
    let name = extract_name(packet, &mut p);
    let qtype: u16 = get_short(&mut p);
    let qclass: u16 = get_short(&mut p);
    if qclass == C_IN {
        if qtype == T_A {
            return (F_IPV4, name);
        } else if qtype == T_AAAA {
            return (F_IPV6, name);
        } else if qtype == T_ANY {
            return (F_IPV4 | F_IPV6, name);
        }
    }
    (F_QUERY, name)
}

// ---------------------------------------------------------------------
// Answer records
// ---------------------------------------------------------------------

/// The offset of the first dot in `b`, or its length when there is none.
pub open spec fn first_dot(b: Seq<u8>) -> int
    decreases b.len(),
{
    if b.len() == 0 {
        0
    } else if b[0] == 46u8 {
        0
    } else {
        1 + first_dot(b.drop_first())
    }
}

/// The wire form of the labels of a dotted name, without the final zero:
/// each piece between dots (empty pieces too) as its length byte and its
/// bytes.
pub open spec fn dns_labels(b: Seq<u8>) -> Seq<u8>
    decreases b.len(),
{
    let i = first_dot(b);
    proof {
        lemma_first_dot_bounds(b);
    }
    if i < b.len() {
        seq![i as u8] + b.take(i) + dns_labels(b.skip(i + 1))
    } else {
        seq![i as u8] + b
    }
}

pub proof fn lemma_first_dot_bounds(b: Seq<u8>)
    ensures
        0 <= first_dot(b) <= b.len(),
        first_dot(b) < b.len() ==> b[first_dot(b)] == 46u8,
        forall|k: int| 0 <= k < first_dot(b) ==> b[k] != 46u8,
    decreases b.len(),
{
    if b.len() > 0 && b[0] != 46u8 {
        lemma_first_dot_bounds(b.drop_first());
        assert forall|k: int| 0 <= k < first_dot(b) implies b[k] != 46u8 by {
            if k > 0 {
                assert(b[k] == b.drop_first()[k - 1]);
            }
        }
    }
}

proof fn lemma_first_dot_is(b: Seq<u8>, i: int)
    requires
        0 <= i <= b.len(),
        i < b.len() ==> b[i] == 46u8,
        forall|k: int| 0 <= k < i ==> b[k] != 46u8,
    ensures
        first_dot(b) == i,
{
    lemma_first_dot_bounds(b);
    if first_dot(b) < i {
        assert(b[first_dot(b)] == 46u8);
    } else if first_dot(b) > i {
        assert(b[i] != 46u8);
    }
}

/// The RDATA length field of a record whose data is `l` bytes long, kept
/// to its low sixteen bits.
pub open spec fn rdlength_bytes(l: int) -> Seq<u8> {
    seq![((l / 256) % 256) as u8, (l % 256) as u8]
}

/// The answer record that points back (by compression) at the name at
/// `nameoffset`, with the given type, class IN, TTL, an optional
/// preference and the dotted name `name` as data.
pub open spec fn spec_text_record(nameoffset: u16, ttl: u32, pref: u16, qtype: u16, name: Seq<u8>) -> Seq<u8> {
    let data = (if pref != 0 {
        be16_bytes(pref)
    } else {
        Seq::<u8>::empty()
    }) + dns_labels(name) + seq![0u8];
    be16_bytes(nameoffset | 0xc000u16) + be16_bytes(qtype) + be16_bytes(C_IN) + be32_bytes(ttl)
        + rdlength_bytes(data.len() as int) + data
}

/// Appends the wire labels of the dotted name `b`.
fn put_labels(b: &[u8], out: &mut Vec<u8>)
    ensures
        final(out)@ == old(out)@ + dns_labels(b@),
{
    let ghost start = old(out)@;
    let mut s: usize = 0;
    let mut i: usize = 0;
    let n: usize = b.len();
    proof {
        assert(b@.skip(0) =~= b@);
    }
    while i < n
        invariant
            n == b@.len(),
            s <= i <= n,
            forall|k: int| s <= k < i ==> b@[k] != 46u8,
            start + dns_labels(b@) == out@ + dns_labels(b@.skip(s as int)),
        decreases n - i,
    {
        if b[i] == 46u8 {
            let ghost rest = b@.skip(s as int);
            proof {
                lemma_first_dot_is(rest, i - s);
                assert(rest.take(i - s) =~= b@.subrange(s as int, i as int));
                assert(rest.skip(i - s + 1) =~= b@.skip(i + 1));
            }
            out.push((i - s) as u8);
            extend_bytes(out, &b[s..i]);
            s = i + 1;
            proof {
                assert(out@ + dns_labels(b@.skip(s as int)) =~= start + dns_labels(b@));
            }
        }
        i += 1;
    }
    let ghost rest = b@.skip(s as int);
    proof {
        lemma_first_dot_is(rest, n - s);
        assert(rest =~= b@.subrange(s as int, n as int));
    }
    out.push((n - s) as u8);
    extend_bytes(out, &b[s..n]);
    proof {
        assert(out@ =~= start + dns_labels(b@));
    }
}

/// Builds an answer record whose name is a compression pointer to
/// `nameoffset` and whose data is the dotted name `name` (after a
/// preference when `pref` is not zero).
pub fn add_text_record(nameoffset: u16, ttl: u32, pref: u16, qtype: u16, name: &str) -> (ansp: Vec<u8>)
    ensures
        ansp@ == spec_text_record(nameoffset, ttl, pref, qtype, name.spec_bytes()),
{
    let mut ansp: Vec<u8> = Vec::new();
    put_short(nameoffset | 0xc000, &mut ansp);
    put_short(qtype, &mut ansp);
    put_short(C_IN, &mut ansp);
    put_long(ttl, &mut ansp);
    let sav: usize = ansp.len();
    put_short(0, &mut ansp);
    let ghost head = ansp@;
    if pref != 0 {
        put_short(pref, &mut ansp);
    }
    put_labels(name.as_bytes(), &mut ansp);
    ansp.push(0);
    let ghost data = ansp@.subrange(12, ansp@.len() as int);
    let l: usize = ansp.len() - sav - 2;
    let hi: u8 = (l >> 8) as u8;
    let lo: u8 = (l & 0xff) as u8;
    assert(hi == ((l as int / 256) % 256) as u8 && lo == (l as int % 256) as u8) by (bit_vector)
        requires
            hi == (l >> 8) as u8,
            lo == (l & 0xff) as u8,
    ;
    ansp.set(sav, hi);
    ansp.set(sav + 1, lo);
    proof {
        let e = spec_text_record(nameoffset, ttl, pref, qtype, name.spec_bytes());
        assert(sav == 10);
        assert(data =~= (if pref != 0 {
            be16_bytes(pref)
        } else {
            Seq::<u8>::empty()
        }) + dns_labels(name.spec_bytes()) + seq![0u8]);
        assert(ansp@ =~= e);
    }
    ansp
}

/// Whether an address lies in a private IPv4 network: 10/8, 172.16/12 or
/// 192.168/16.  IPv6 addresses never do.
pub open spec fn spec_private_net(a: AllAddr) -> bool {
    match a {
        AllAddr::V4(v) => {
            let o0 = v as int / 16777216;
            let o1 = (v as int / 65536) % 256;
            o0 == 10 || (o0 == 172 && 16 <= o1 <= 31) || (o0 == 192 && o1 == 168)
        },
        AllAddr::V6(_) => false,
    }
}

/// Whether the address is a private IPv4 address.
pub fn private_net(addrp: &AllAddr) -> (b: bool)
    ensures
        b == spec_private_net(*addrp),
{
    match addrp {
        AllAddr::V4(v) => {
            let o0: u32 = *v / 16777216;
            let o1: u32 = (*v / 65536) % 256;
            o0 == 10 || (o0 == 172 && 16 <= o1 && o1 <= 31) || (o0 == 192 && o1 == 168)
        },
        AllAddr::V6(_) => false,
    }
}

// ---------------------------------------------------------------------
// Replies built from configuration
// ---------------------------------------------------------------------

/// The sixteen octets of an IPv6 address.
pub open spec fn be128_bytes(v: u128) -> Seq<u8> {
    be32_bytes((v as int / 0x1_0000_0000_0000_0000_0000_0000) as u32) + be32_bytes(
        ((v as int / 0x1_0000_0000_0000_0000) % 0x1_0000_0000) as u32,
    ) + be32_bytes(((v as int / 0x1_0000_0000) % 0x1_0000_0000) as u32) + be32_bytes(
        (v as int % 0x1_0000_0000) as u32,
    )
}

/// Appends the sixteen octets of an IPv6 address.
pub fn put_addr6(v: u128, out: &mut Vec<u8>)
    ensures
        final(out)@ == old(out)@ + be128_bytes(v),
{
    let w0: u32 = (v >> 96) as u32;
    let w1: u32 = (v >> 64) as u32;
    let w2: u32 = (v >> 32) as u32;
    let w3: u32 = v as u32;
    assert(w0 == (v as int / 0x1_0000_0000_0000_0000_0000_0000) as u32 && w1 == ((v as int
        / 0x1_0000_0000_0000_0000) % 0x1_0000_0000) as u32 && w2 == ((v as int / 0x1_0000_0000)
        % 0x1_0000_0000) as u32 && w3 == (v as int % 0x1_0000_0000) as u32) by (bit_vector)
        requires
            w0 == (v >> 96) as u32,
            w1 == (v >> 64) as u32,
            w2 == (v >> 32) as u32,
            w3 == v as u32,
    ;
    put_long(w0, out);
    put_long(w1, out);
    put_long(w2, out);
    put_long(w3, out);
    assert(out@ =~= old(out)@ + be128_bytes(v));
}

/// What `setup_reply` can build without indexing past the end or
/// unwrapping an absent address: a message whose questions can be
/// skipped to a non-zero offset, and an address of the kind the flags
/// name.
pub open spec fn setup_reply_ok(packet: Seq<u8>, addrp: Option<AllAddr>, flags: u16) -> bool {
    &&& !(spec_skip_questions(packet) is Panic)
    &&& spec_answer_offset(packet) != 0
    &&& (flags == F_IPV4 ==> (addrp matches Some(AllAddr::V4(_))))
    &&& (flags == F_IPV6 ==> (addrp matches Some(AllAddr::V6(_))))
}

/// The header of a reply built from configuration: a response to the
/// query, recursion available, not truncated, with the response code and
/// answer count that the flags call for.
pub open spec fn reply_header(h: Header, flags: u16) -> Header {
    let base = Header {
        qr: true,
        aa: false,
        ra: true,
        tc: false,
        nscount: 0,
        arcount: 0,
        ancount: 0,
        ..h
    };
    if flags == F_NEG {
        Header { rcode: SERVFAIL, ..base }
    } else if flags == F_NOERR {
        Header { rcode: NOERROR, ..base }
    } else if flags == F_NXDOMAIN {
        Header { rcode: NXDOMAIN, ..base }
    } else if flags == F_IPV4 || flags == F_IPV6 {
        Header { rcode: NOERROR, ancount: 1, aa: true, ..base }
    } else {
        Header { rcode: REFUSED, ..base }
    }
}

/// The answer of a reply built from configuration: one A or AAAA record
/// pointing back at the first question, or nothing.
pub open spec fn reply_answer(addrp: Option<AllAddr>, flags: u16, ttl: u32) -> Seq<u8> {
    if flags == F_NEG || flags == F_NOERR || flags == F_NXDOMAIN {
        seq![]
    } else if flags == F_IPV4 {
        match addrp {
            Some(AllAddr::V4(a)) => be16_bytes(0xc00cu16) + be16_bytes(T_A) + be16_bytes(C_IN)
                + be32_bytes(ttl) + be16_bytes(INADDRSZ) + be32_bytes(a),
            _ => seq![],
        }
    } else if flags == F_IPV6 {
        match addrp {
            Some(AllAddr::V6(a)) => be16_bytes(0xc00cu16) + be16_bytes(T_AAAA) + be16_bytes(C_IN)
                + be32_bytes(ttl) + be16_bytes(IN6ADDRSZ) + be128_bytes(a),
            _ => seq![],
        }
    } else {
        seq![]
    }
}

/// Builds the reply to a query from configuration rather than from
/// upstream: the query's header (changed as `reply_header` says) and
/// questions, then the answer that `reply_answer` gives.
pub fn setup_reply(packet: &[u8], addrp: Option<AllAddr>, flags: u16, ttl: u32) -> (ans: Vec<u8>)
    requires
        setup_reply_ok(packet@, addrp, flags),
    ensures
        ans@ == spec_header_bytes(reply_header(spec_header_of(packet@), flags)) + packet@.subrange(
            12,
            spec_answer_offset(packet@),
        ) + reply_answer(addrp, flags, ttl),
{
    let mut header = header_of(packet);
    let pos: usize = skip_questions(packet);
    let mut p: Vec<u8> = Vec::new();
    assert((12u16 | 0xc000u16) == 0xc00cu16) by (bit_vector);
    header.qr = true;
    header.aa = false;
    header.ra = true;
    header.tc = false;
    header.nscount = 0;
    header.arcount = 0;
    header.ancount = 0;
    if flags == F_NEG {
        header.rcode = SERVFAIL;
    } else if flags == F_NOERR {
        header.rcode = NOERROR;
    } else if flags == F_NXDOMAIN {
        header.rcode = NXDOMAIN;
    } else if pos != 0 && flags == F_IPV4 {
        header.rcode = NOERROR;
        header.ancount = 1;
        header.aa = true;
        put_short(12 | 0xc000, &mut p);
        put_short(T_A, &mut p);
        put_short(C_IN, &mut p);
        put_long(ttl, &mut p);
        put_short(INADDRSZ, &mut p);
        match addrp {
            Some(AllAddr::V4(a)) => put_long(a, &mut p),
            _ => {},
        }
    } else if pos != 0 && flags == F_IPV6 {
        header.rcode = NOERROR;
        header.ancount = 1;
        header.aa = true;
        put_short(12 | 0xc000, &mut p);
        put_short(T_AAAA, &mut p);
        put_short(C_IN, &mut p);
        put_long(ttl, &mut p);
        put_short(IN6ADDRSZ, &mut p);
        match addrp {
            Some(AllAddr::V6(a)) => put_addr6(a, &mut p),
            _ => {},
        }
    } else {
        header.rcode = REFUSED;
    }
    let mut ans: Vec<u8> = header.to_bytes();
    proof {
        lemma_skip_qs_at_least(packet@, spec_header_of(packet@).qdcount as nat);
    }
    extend_bytes(&mut ans, &packet[12..pos]);
    extend_bytes(&mut ans, p.as_slice());
    proof {
        assert(header == reply_header(spec_header_of(packet@), flags));
        assert(p@ =~= reply_answer(addrp, flags, ttl));
    }
    ans
}

} // verus!
