//! Reading the address out of a reverse-lookup name: `d.c.b.a.in-addr.arpa`
//! for IPv4, nibbles or a bit string under `ip6.arpa` (or `ip6.int`) for
//! IPv6.

use crate::dnsmasq::{AllAddr, F_IPV4, F_IPV6};
use crate::util::{all_digits, decimal_value, is_ascii_digit_spec, str_chars};
use vstd::prelude::*;
use vstd::utf8::encode_utf8;

verus! {

/// The longest reverse name read, in bytes.
pub const MAXARPANAME: usize = 75;

/// How reading a reverse name ends.
pub enum ArpaOutcome {
    /// Reading would index past the end of the address buffer.
    Panic,
    /// The kind of address (0 for none) and the address.
    Res(u16, Option<AllAddr>),
}

/// The pieces finished among the first `n` characters when cutting at
/// dots, and the piece being read.
pub open spec fn dot_acc(s: Seq<char>, n: int) -> (Seq<Seq<char>>, Seq<char>)
    decreases n,
{
    if n <= 0 || n > s.len() {
        (seq![], seq![])
    } else {
        let (d, c) = dot_acc(s, n - 1);
        if s[n - 1] == '.' {
            (d.push(c), seq![])
        } else {
            (d, c.push(s[n - 1]))
        }
    }
}

/// The pieces between the dots, empty ones included: there is always one
/// more piece than there are dots.
pub open spec fn dot_split(s: Seq<char>) -> Seq<Seq<char>> {
    let (d, c) = dot_acc(s, s.len() as int);
    d.push(c)
}

/// An ASCII hexadecimal digit.
pub open spec fn is_hex(c: char) -> bool {
    ('0' <= c && c <= '9') || ('a' <= c && c <= 'f') || ('A' <= c && c <= 'F')
}

/// The value of a hexadecimal digit.
pub open spec fn hex_value(c: char) -> int {
    if '0' <= c && c <= '9' {
        c as int - '0' as int
    } else if 'a' <= c && c <= 'f' {
        c as int - 'a' as int + 10
    } else {
        c as int - 'A' as int + 10
    }
}

/// An IPv4 piece: at least one decimal digit, and a value that fits in a
/// byte.
pub open spec fn v4_piece_ok(l: Seq<char>) -> bool {
    l.len() > 0 && all_digits(l) && decimal_value(l) <= 255
}

/// The first of the first `n` pieces that does not pass `v4_piece_ok`, or
/// `n` when they all do.
pub open spec fn first_bad_v4(ls: Seq<Seq<char>>, n: int) -> int
    decreases n,
{
    if n <= 0 {
        0
    } else {
        let f = first_bad_v4(ls, n - 1);
        if f < n - 1 {
            f
        } else if v4_piece_ok(ls[n - 1]) {
            n
        } else {
            n - 1
        }
    }
}

/// 256 to the power `i`, for the byte positions of an IPv4 address.
pub open spec fn byte_weight(i: int) -> int {
    if i <= 0 {
        1
    } else if i == 1 {
        256
    } else if i == 2 {
        65536
    } else if i == 3 {
        16777216
    } else {
        4294967296
    }
}

/// The IPv4 address of pieces `d.c.b.a`: the first piece is the lowest
/// byte.
pub open spec fn v4_value(ls: Seq<Seq<char>>, n: int) -> int
    decreases n,
{
    if n <= 0 {
        0
    } else {
        v4_value(ls, n - 1) + decimal_value(ls[n - 1]) * byte_weight(n - 1)
    }
}

/// Reading `ls` (the pieces before `in-addr.arpa`): a piece that is not a
/// byte gives nothing; a fifth good piece is one too many for the
/// four-byte address buffer.
pub open spec fn v4_outcome(ls: Seq<Seq<char>>) -> ArpaOutcome {
    let n = ls.len() as int;
    if n >= 5 && first_bad_v4(ls, 5) >= 5 {
        ArpaOutcome::Panic
    } else if first_bad_v4(ls, n) < n {
        ArpaOutcome::Res(0, None)
    } else {
        ArpaOutcome::Res(F_IPV4, Some(AllAddr::V4(v4_value(ls, n) as u32)))
    }
}

/// A nibble piece: one hexadecimal digit.
pub open spec fn nibble_ok(l: Seq<char>) -> bool {
    l.len() == 1 && is_hex(l[0])
}

/// Whether each of the first `n` pieces is a nibble.
pub open spec fn all_nibbles(ls: Seq<Seq<char>>, n: int) -> bool {
    forall|i: int| 0 <= i < n ==> nibble_ok(#[trigger] ls[i])
}

/// The byte buffer and position after writing the first `n` nibbles the
/// way the reader does: from position 15 down (staying at 0), a nibble
/// at an odd position is or-ed into byte `position / 2`, one at an even
/// position replaces that byte with the nibble in its high half.
pub open spec fn nibble_state(ls: Seq<Seq<char>>, n: int) -> (int, Seq<u8>)
    decreases n,
{
    if n <= 0 {
        (15, Seq::new(16, |i: int| 0u8))
    } else {
        let (idx, b) = nibble_state(ls, n - 1);
        let v = hex_value(ls[n - 1][0]) as u8;
        let b2 = if idx % 2 == 1 {
            b.update(idx / 2, b[idx / 2] | v)
        } else {
            b.update(idx / 2, (v * 16) as u8)
        };
        (if idx > 0 {
            idx - 1
        } else {
            0
        }, b2)
    }
}

/// The number whose big-endian bytes are the first `n` of `b`, kept to
/// 128 bits.
pub open spec fn be_u128(b: Seq<u8>, n: int) -> u128
    decreases n,
{
    if n <= 0 {
        0
    } else {
        (be_u128(b, n - 1) << 8u128) | (b[n - 1] as u128)
    }
}

/// Whether a piece starts with `\[x`, the mark of a bit string.
pub open spec fn bitstring_mark(p: Seq<char>) -> bool {
    p.len() >= 3 && p[0] == '\\' && p[1] == '[' && p[2] == 'x'
}

/// Whether the first `n` characters are hexadecimal digits.
pub open spec fn all_hex(s: Seq<char>, n: int) -> bool {
    forall|i: int| 0 <= i < n ==> is_hex(#[trigger] s[i])
}

/// The sixteen bytes written by 32 hexadecimal digits.
pub open spec fn hex_bytes(s: Seq<char>) -> Seq<u8> {
    Seq::new(16, |j: int| (hex_value(s[2 * j]) * 16 + hex_value(s[2 * j + 1])) as u8)
}

/// Reading a bit string `\[x...`: its digits after the mark must all be
/// hexadecimal and exactly 32 of them make the address; a 33rd digit is
/// one too many for the sixteen-byte address buffer.
pub open spec fn bitstring_outcome(p: Seq<char>) -> ArpaOutcome {
    let r = p.skip(3);
    if r.len() >= 33 && all_hex(r, 33) {
        ArpaOutcome::Panic
    } else if r.len() == 32 && all_hex(r, 32) {
        ArpaOutcome::Res(F_IPV6, Some(AllAddr::V6(be_u128(hex_bytes(r), 16))))
    } else {
        ArpaOutcome::Res(0, None)
    }
}

/// Reading the pieces before `ip6.arpa` (or `ip6.int`): a bit string in
/// the first piece, or nibbles.
pub open spec fn v6_outcome(ls: Seq<Seq<char>>) -> ArpaOutcome {
    if bitstring_mark(ls[0]) {
        bitstring_outcome(ls[0])
    } else if all_nibbles(ls, ls.len() as int) {
        ArpaOutcome::Res(F_IPV6, Some(AllAddr::V6(be_u128(nibble_state(ls, ls.len() as int).1, 16))))
    } else {
        ArpaOutcome::Res(0, None)
    }
}

/// What reading a reverse name gives.  Names longer than `MAXARPANAME`
/// bytes, or with fewer than three pieces, give nothing.
pub open spec fn arpa_outcome(name: Seq<char>) -> ArpaOutcome {
    let ps = dot_split(name);
    let n = ps.len() as int;
    if encode_utf8(name).len() > MAXARPANAME {
        ArpaOutcome::Res(0, None)
    } else if n < 3 {
        ArpaOutcome::Res(0, None)
    } else {
        let last = ps[n - 1];
        let pen = ps[n - 2];
        let ls = ps.take(n - 2);
        if last == seq!['a', 'r', 'p', 'a'] && pen == seq!['i', 'n', '-', 'a', 'd', 'd', 'r'] {
            v4_outcome(ls)
        } else if pen == seq!['i', 'p', '6'] && (last == seq!['i', 'n', 't'] || last == seq!['a', 'r', 'p', 'a']) {
            v6_outcome(ls)
        } else {
            ArpaOutcome::Res(0, None)
        }
    }
}

/// The characters of some character vectors.
pub open spec fn chars_of(v: Seq<Vec<char>>) -> Seq<Seq<char>> {
    v.map_values(|x: Vec<char>| x@)
}

/// The pieces of `s` between dots (see `dot_split`).
fn split_dots(s: &Vec<char>) -> (v: Vec<Vec<char>>)
    ensures
        chars_of(v@) == dot_split(s@),
{
    let mut done: Vec<Vec<char>> = Vec::new();
    let mut cur: Vec<char> = Vec::new();
    let mut i: usize = 0;
    while i < s.len()
        invariant
            i <= s@.len(),
            chars_of(done@) == dot_acc(s@, i as int).0,
            cur@ == dot_acc(s@, i as int).1,
        decreases s@.len() - i,
    {
        if s[i] == '.' {
            let ghost dv = chars_of(done@);
            let ghost cv = cur@;
            done.push(cur);
            assert(chars_of(done@) =~= dv.push(cv));
            cur = Vec::new();
        } else {
            cur.push(s[i]);
        }
        i += 1;
        assert(cur@ =~= dot_acc(s@, i as int).1);
    }
    let ghost dv = chars_of(done@);
    let ghost cv = cur@;
    done.push(cur);
    assert(chars_of(done@) =~= dv.push(cv));
    done
}

fn chars_are(a: &Vec<char>, b: &[char]) -> (r: bool)
    ensures
        r == (a@ == b@),
{
    if a.len() != b.len() {
        return false;
    }
    let mut i: usize = 0;
    while i < a.len()
        invariant
            a@.len() == b@.len(),
            i <= a@.len(),
            forall|k: int| 0 <= k < i ==> a@[k] == b@[k],
        decreases a@.len() - i,
    {
        if a[i] != b[i] {
            return false;
        }
        i += 1;
    }
    assert(a@ =~= b@);
    true
}

fn is_hex_exec(c: char) -> (r: bool)
    ensures
        r == is_hex(c),
{
    ('0' <= c && c <= '9') || ('a' <= c && c <= 'f') || ('A' <= c && c <= 'F')
}

fn hex_value_exec(c: char) -> (v: u8)
    requires
        is_hex(c),
    ensures
        v as int == hex_value(c),
        v < 16,
{
    if '0' <= c && c <= '9' {
        (c as u32 - '0' as u32) as u8
    } else if 'a' <= c && c <= 'f' {
        (c as u32 - 'a' as u32 + 10) as u8
    } else {
        (c as u32 - 'A' as u32 + 10) as u8
    }
}

/// The value of a piece when it passes `v4_piece_ok`.
fn v4_piece(l: &Vec<char>) -> (r: Option<u32>)
    ensures
        r is Some <==> v4_piece_ok(l@),
        r matches Some(v) ==> v as int == decimal_value(l@),
{
    if l.len() == 0 {
        return None;
    }
    let mut value: u32 = 0;
    let mut i: usize = 0;
    while i < l.len()
        invariant
            i <= l@.len(),
            all_digits(l@.take(i as int)),
            value as int == decimal_value(l@.take(i as int)),
            value <= 255,
        decreases l@.len() - i,
    {
        let c: char = l[i];
        assert(l@.take(i + 1).drop_last() =~= l@.take(i as int));
        assert(l@.take(i + 1).last() == c);
        if !('0' <= c && c <= '9') {
            assert(!is_ascii_digit_spec(l@[i as int]));
            return None;
        }
        let next: u32 = value * 10 + (c as u32 - '0' as u32);
        assert(all_digits(l@.take(i + 1)));
        if next > 255 {
            proof {
                if all_digits(l@) {
                    lemma_decimal_grows(l@, i as int + 1);
                }
            }
            return None;
        }
        value = next;
        i += 1;
    }
    assert(l@.take(l@.len() as int) =~= l@);
    Some(value)
}

/// A decimal number is at least the value of any prefix of its digits.
proof fn lemma_decimal_grows(s: Seq<char>, k: int)
    requires
        0 <= k <= s.len(),
        all_digits(s),
    ensures
        decimal_value(s.take(k)) <= decimal_value(s),
    decreases s.len() - k,
{
    if k < s.len() {
        lemma_decimal_grows(s, k + 1);
        assert(s.take(k + 1).drop_last() =~= s.take(k));
        assert(is_ascii_digit_spec(s[k]));
        lemma_decimal_nonneg(s.take(k));
    }
    assert(s.take(s.len() as int) =~= s);
}

proof fn lemma_decimal_nonneg(s: Seq<char>)
    requires
        all_digits(s),
    ensures
        decimal_value(s) >= 0,
    decreases s.len(),
{
    if s.len() > 0 {
        assert(all_digits(s.drop_last())) by {
            assert forall|i: int| 0 <= i < s.drop_last().len() implies is_ascii_digit_spec(#[trigger] s.drop_last()[i]) by {
                assert(s.drop_last()[i] == s[i]);
            }
        }
        lemma_decimal_nonneg(s.drop_last());
        assert(is_ascii_digit_spec(s[s.len() - 1]));
    }
}

fn v4_read(ls: &Vec<Vec<char>>, n: usize) -> (r: (u16, Option<AllAddr>))
    requires
        n <= ls@.len(),
        !(v4_outcome(chars_of(ls@.take(n as int))) is Panic),
    ensures
        ArpaOutcome::Res(r.0, r.1) == v4_outcome(chars_of(ls@.take(n as int))),
{
    let ghost lv = chars_of(ls@.take(n as int));
    let mut value: u32 = 0;
    let mut i: usize = 0;
    while i < n
        invariant
            n <= ls@.len(),
            lv == chars_of(ls@.take(n as int)),
            !(v4_outcome(lv) is Panic),
            i <= n,
            i <= 4,
            first_bad_v4(lv, i as int) == i,
            value as int == v4_value(lv, i as int),
            (value as int) < byte_weight(i as int),
        decreases n - i,
    {
        assert(lv[i as int] == ls@[i as int]@);
        match v4_piece(&ls[i]) {
            None => {
                assert(first_bad_v4(lv, i + 1) == i);
                proof {
                    lemma_first_bad_stays(lv, i as int + 1, n as int);
                }
                return (0, None);
            },
            Some(octet) => {
                assert(first_bad_v4(lv, i + 1) == i + 1);
                if i == 4 {
                    assert(false);
                }
                let w: u32 = if i == 0 {
                    1
                } else if i == 1 {
                    256
                } else if i == 2 {
                    65536
                } else {
                    16777216
                };
                assert(w as int == byte_weight(i as int));
                assert(octet as int * w as int <= 255 * w as int) by (nonlinear_arith)
                    requires
                        octet <= 255,
                ;
                value = value + octet * w;
                i += 1;
            },
        }
    }
    assert(lv.len() == n);
    (F_IPV4, Some(AllAddr::V4(value)))
}

proof fn lemma_first_bad_stays(ls: Seq<Seq<char>>, k: int, n: int)
    requires
        1 <= k <= n,
        first_bad_v4(ls, k) < k,
    ensures
        first_bad_v4(ls, n) == first_bad_v4(ls, k),
    decreases n - k,
{
    if k < n {
        lemma_first_bad_stays(ls, k, n - 1);
    }
}

fn v6_nibbles(ls: &Vec<Vec<char>>, n: usize) -> (r: (u16, Option<AllAddr>))
    requires
        1 <= n <= ls@.len(),
        !bitstring_mark(ls@[0]@),
    ensures
        ArpaOutcome::Res(r.0, r.1) == v6_outcome(chars_of(ls@.take(n as int))),
{
    let ghost lv = chars_of(ls@.take(n as int));
    assert(lv[0] == ls@[0]@);
    let mut bytes: Vec<u8> = vec![0u8, 0, 0, 0, 0, 0, 0, 0, 0, 0, 0, 0, 0, 0, 0, 0];
    assert(bytes@ =~= nibble_state(lv, 0).1);
    let mut idx: usize = 15;
    let mut i: usize = 0;
    while i < n
        invariant
            n <= ls@.len(),
            lv == chars_of(ls@.take(n as int)),
            i <= n,
            all_nibbles(lv, i as int),
            (idx as int, bytes@) == nibble_state(lv, i as int),
            !bitstring_mark(ls@[0]@),
            1 <= n,
            idx <= 15,
            bytes@.len() == 16,
        decreases n - i,
    {
        let l: &Vec<char> = &ls[i];
        assert(lv[i as int] == l@);
        if l.len() != 1 || !is_hex_exec(l[0]) {
            assert(!nibble_ok(lv[i as int]));
            assert(!all_nibbles(lv, n as int));
            assert(lv.len() == n);
            assert(lv[0] == ls@[0]@);
            return (0, None);
        }
        let v: u8 = hex_value_exec(l[0]);
        if idx % 2 == 1 {
            let b: u8 = bytes[idx / 2] | v;
            bytes.set(idx / 2, b);
        } else {
            bytes.set(idx / 2, v * 16);
        }
        if idx > 0 {
            idx = idx - 1;
        }
        i += 1;
        assert(all_nibbles(lv, i as int));
    }
    let mut value: u128 = 0;
    let mut k: usize = 0;
    while k < 16
        invariant
            k <= 16,
            bytes@.len() == 16,
            value == be_u128(bytes@, k as int),
        decreases 16 - k,
    {
        value = (value << 8u128) | (bytes[k] as u128);
        k += 1;
    }
    (F_IPV6, Some(AllAddr::V6(value)))
}

fn v6_bitstring(p: &Vec<char>) -> (r: (u16, Option<AllAddr>))
    requires
        bitstring_mark(p@),
        !(bitstring_outcome(p@) is Panic),
    ensures
        ArpaOutcome::Res(r.0, r.1) == bitstring_outcome(p@),
{
    let ghost rest = p@.skip(3);
    let mut i: usize = 3;
    while i < p.len()
        invariant
            3 <= i <= p@.len(),
            rest == p@.skip(3),
            all_hex(rest, i - 3),
            i - 3 <= 32,
            !(bitstring_outcome(p@) is Panic),
        decreases p@.len() - i,
    {
        assert(rest[i - 3] == p@[i as int]);
        if !is_hex_exec(p[i]) {
            assert(!all_hex(rest, 32) || rest.len() != 32 || i - 3 >= 32);
            return (0, None);
        }
        if i - 3 == 32 {
            assert(all_hex(rest, 33));
            assert(false);
        }
        i += 1;
    }
    if p.len() - 3 != 32 {
        return (0, None);
    }
    let mut value: u128 = 0;
    let mut j: usize = 0;
    let ghost hb = hex_bytes(rest);
    while j < 16
        invariant
            j <= 16,
            p@.len() == 35,
            rest == p@.skip(3),
            all_hex(rest, 32),
            hb == hex_bytes(rest),
            value == be_u128(hb, j as int),
        decreases 16 - j,
    {
        assert(rest[2 * j as int] == p@[3 + 2 * j]);
        assert(rest[2 * j + 1] == p@[3 + 2 * j + 1]);
        let hi: u8 = hex_value_exec(p[3 + 2 * j]);
        let lo: u8 = hex_value_exec(p[3 + 2 * j + 1]);
        let b: u8 = hi * 16 + lo;
        assert(b == hb[j as int]);
        value = (value << 8u128) | (b as u128);
        j += 1;
    }
    (F_IPV6, Some(AllAddr::V6(value)))
}

/// Reads the address out of a reverse-lookup name (see `arpa_outcome`):
/// gives `F_IPV4` or `F_IPV6` and the address, or 0 and nothing.
pub fn in_arpa_name_2_addr(namein: &str) -> (r: (u16, Option<AllAddr>))
    requires
        !(arpa_outcome(namein@) is Panic),
    ensures
        ArpaOutcome::Res(r.0, r.1) == arpa_outcome(namein@),
{
    let bytes: &[u8] = namein.as_bytes();
    assert(bytes@ == encode_utf8(namein@));
    if bytes.len() > MAXARPANAME {
        return (0, None);
    }
    let chars: Vec<char> = str_chars(namein);
    let ps: Vec<Vec<char>> = split_dots(&chars);
    let ghost pv = chars_of(ps@);
    let n: usize = ps.len();
    if n < 3 {
        return (0, None);
    }
    let last: &Vec<char> = &ps[n - 1];
    let pen: &Vec<char> = &ps[n - 2];
    assert(pv[n - 1] == last@);
    assert(pv[n - 2] == pen@);
    assert(pv.take(n - 2) =~= chars_of(ps@.take(n - 2)));
    if chars_are(last, &['a', 'r', 'p', 'a']) && chars_are(pen, &['i', 'n', '-', 'a', 'd', 'd', 'r']) {
        v4_read(&ps, n - 2)
    } else if chars_are(pen, &['i', 'p', '6']) && (chars_are(last, &['i', 'n', 't']) || chars_are(
        last,
        &['a', 'r', 'p', 'a'],
    )) {
        let first: &Vec<char> = &ps[0];
        assert(pv.take(n - 2)[0] == first@);
        if first.len() >= 3 && first[0] == '\\' && first[1] == '[' && first[2] == 'x' {
            v6_bitstring(first)
        } else {
            v6_nibbles(&ps, n - 2)
        }
    } else {
        (0, None)
    }
}

} // verus!
