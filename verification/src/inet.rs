//! Numbers and addresses written as text, read as the standard library
//! reads them: unsigned integers, IPv4 and IPv6 addresses and socket
//! addresses.

use crate::dnsmasq::{AllAddr, MySockAddr};
use crate::util::{all_digits, decimal_digits, decimal_value, digit_value, is_ascii_digit_spec};
use vstd::prelude::*;

verus! {

// ---------------------------------------------------------------------
// Splitting text
// ---------------------------------------------------------------------

/// Splitting the first `n` characters of `s` at each `c`: the pieces
/// finished so far and the one being read.
pub open spec fn pieces_acc(s: Seq<char>, c: char, n: int) -> (Seq<Seq<char>>, Seq<char>)
    decreases n,
{
    if n <= 0 || n > s.len() {
        (seq![], seq![])
    } else {
        let (d, cur) = pieces_acc(s, c, n - 1);
        if s[n - 1] == c {
            (d.push(cur), seq![])
        } else {
            (d, cur.push(s[n - 1]))
        }
    }
}

/// The pieces of `s` between the characters `c`, as `str::split` gives
/// them: one more than there are `c`, empty ones included.
pub open spec fn pieces(s: Seq<char>, c: char) -> Seq<Seq<char>> {
    let (d, cur) = pieces_acc(s, c, s.len() as int);
    d.push(cur)
}

/// The characters held by each vector.
pub open spec fn vecs_view(v: Seq<Vec<char>>) -> Seq<Seq<char>> {
    v.map_values(|x: Vec<char>| x@)
}

/// Splits `s` at each `c` (see `pieces`).
pub fn split_on(s: &[char], c: char) -> (r: Vec<Vec<char>>)
    ensures
        vecs_view(r@) == pieces(s@, c),
        r@.len() >= 1,
{
    let mut done: Vec<Vec<char>> = Vec::new();
    let mut cur: Vec<char> = Vec::new();
    let mut i: usize = 0;
    while i < s.len()
        invariant
            i <= s@.len(),
            vecs_view(done@) == pieces_acc(s@, c, i as int).0,
            cur@ == pieces_acc(s@, c, i as int).1,
        decreases s.len() - i,
    {
        let ch: char = s[i];
        if ch == c {
            let ghost dv = vecs_view(done@);
            let ghost cv = cur@;
            done.push(cur);
            assert(vecs_view(done@) =~= dv.push(cv));
            cur = Vec::new();
        } else {
            cur.push(ch);
        }
        i += 1;
    }
    let ghost dv = vecs_view(done@);
    let ghost cv = cur@;
    done.push(cur);
    assert(vecs_view(done@) =~= dv.push(cv));
    done
}

/// The position of the first `c` in `s`, or the length of `s` when there
/// is none.
pub open spec fn first_index(s: Seq<char>, c: char) -> int
    decreases s.len(),
{
    if s.len() == 0 {
        0
    } else if s[0] == c {
        0
    } else {
        1 + first_index(s.drop_first(), c)
    }
}

pub proof fn lemma_first_index(s: Seq<char>, c: char)
    ensures
        0 <= first_index(s, c) <= s.len(),
        first_index(s, c) < s.len() ==> s[first_index(s, c)] == c,
        forall|k: int| 0 <= k < first_index(s, c) ==> s[k] != c,
        first_index(s, c) == s.len() <==> !s.contains(c),
    decreases s.len(),
{
    if s.len() > 0 && s[0] != c {
        lemma_first_index(s.drop_first(), c);
        assert forall|k: int| 0 <= k < first_index(s, c) implies s[k] != c by {
            if k > 0 {
                assert(s[k] == s.drop_first()[k - 1]);
            }
        }
        if s.contains(c) {
            let j = choose|j: int| 0 <= j < s.len() && s[j] == c;
            assert(s.drop_first()[j - 1] == c);
        }
        if s.drop_first().contains(c) {
            let j = choose|j: int| 0 <= j < s.drop_first().len() && s.drop_first()[j] == c;
            assert(s[j + 1] == c);
        }
    }
    if s.len() > 0 && s[0] == c {
        assert(s.contains(c)) by {
            assert(s[0] == c);
        }
    }
}

/// Finds the first `c` in `s` (see `first_index`).
pub fn find_char(s: &[char], c: char) -> (r: usize)
    ensures
        r == first_index(s@, c),
        r <= s@.len(),
{
    proof {
        lemma_first_index(s@, c);
    }
    let mut i: usize = 0;
    while i < s.len()
        invariant
            i <= s@.len(),
            forall|k: int| 0 <= k < i ==> s@[k] != c,
            0 <= first_index(s@, c) <= s@.len(),
            first_index(s@, c) < s@.len() ==> s@[first_index(s@, c)] == c,
            forall|k: int| 0 <= k < first_index(s@, c) ==> s@[k] != c,
        decreases s.len() - i,
    {
        if s[i] == c {
            return i;
        }
        i += 1;
    }
    i
}

/// Whether `c` occurs in `s`.
pub fn has_char(s: &[char], c: char) -> (b: bool)
    ensures
        b == s@.contains(c),
{
    proof {
        lemma_first_index(s@, c);
    }
    find_char(s, c) < s.len()
}

/// The characters of `s` from `lo` to `hi`, as a vector.
pub fn sub_chars(s: &[char], lo: usize, hi: usize) -> (r: Vec<char>)
    requires
        lo <= hi <= s@.len(),
    ensures
        r@ == s@.subrange(lo as int, hi as int),
{
    let mut r: Vec<char> = Vec::new();
    let mut i: usize = lo;
    while i < hi
        invariant
            lo <= i <= hi <= s@.len(),
            r@ == s@.subrange(lo as int, i as int),
        decreases hi - i,
    {
        r.push(s[i]);
        i += 1;
        assert(r@ =~= s@.subrange(lo as int, i as int));
    }
    r
}

// ---------------------------------------------------------------------
// Unsigned integers
// ---------------------------------------------------------------------

/// An unsigned decimal literal as `str::parse` reads it: an optional `+`,
/// then at least one ASCII digit; its value when that is at most `max`.
pub open spec fn spec_parse_dec(s: Seq<char>, max: int) -> Option<int> {
    let d = decimal_digits(s);
    if d.len() > 0 && all_digits(d) && decimal_value(d) <= max {
        Some(decimal_value(d))
    } else {
        None
    }
}

proof fn lemma_decimal_value_bounds(s: Seq<char>, k: int)
    requires
        0 <= k <= s.len(),
        all_digits(s),
    ensures
        0 <= decimal_value(s.take(k)) <= decimal_value(s),
    decreases s.len(),
{
    if s.len() == 0 {
        assert(s.take(k) =~= s);
    } else if k == s.len() {
        assert(s.take(k) =~= s);
        lemma_decimal_value_bounds(s.drop_last(), s.len() - 1);
        assert(s.drop_last().take(s.len() - 1) =~= s.drop_last());
    } else {
        assert(all_digits(s.drop_last()));
        lemma_decimal_value_bounds(s.drop_last(), k);
        assert(s.drop_last().take(k) =~= s.take(k));
        lemma_decimal_value_bounds(s.drop_last(), s.len() - 1);
        assert(s.drop_last().take(s.len() - 1) =~= s.drop_last());
    }
}

/// Reads an unsigned decimal literal (see `spec_parse_dec`).
pub fn parse_dec(s: &[char], max: u64) -> (r: Option<u64>)
    ensures
        match spec_parse_dec(s@, max as int) {
            Some(x) => r == Some(x as u64),
            None => r is None,
        },
        r matches Some(v) ==> v <= max && spec_parse_dec(s@, max as int) == Some(v as int),
{
    let mut start: usize = 0;
    if s.len() > 0 && s[0] == '+' {
        start = 1;
    }
    let ghost d = decimal_digits(s@);
    assert(d =~= s@.subrange(start as int, s@.len() as int));
    if start >= s.len() {
        return None;
    }
    let mut value: u64 = 0;
    let mut i: usize = start;
    while i < s.len()
        invariant
            start <= i <= s@.len(),
            d == decimal_digits(s@),
            d =~= s@.subrange(start as int, s@.len() as int),
            all_digits(d.take(i - start)),
            value as int == decimal_value(d.take(i - start)),
            value <= max,
        decreases s.len() - i,
    {
        let c = s[i];
        if !('0' <= c && c <= '9') {
            proof {
                assert(d[i - start] == c);
                assert(!all_digits(d));
            }
            return None;
        }
        let next: u128 = value as u128 * 10 + (c as u32 - '0' as u32) as u128;
        proof {
            let k: int = i - start;
            assert(d.take(k + 1).drop_last() =~= d.take(k));
            assert(d.take(k + 1).last() == c);
            assert(all_digits(d.take(k + 1)));
        }
        if next > max as u128 {
            proof {
                if all_digits(d) {
                    lemma_decimal_value_bounds(d, i - start + 1);
                }
            }
            return None;
        }
        value = next as u64;
        i += 1;
    }
    assert(d.take(i - start) =~= d);
    Some(value)
}

/// Whether `c` is a hexadecimal digit.
pub open spec fn is_hex_digit(c: char) -> bool {
    is_ascii_digit_spec(c) || ('a' <= c && c <= 'f') || ('A' <= c && c <= 'F')
}

/// The value of a hexadecimal digit.
pub open spec fn hex_digit_value(c: char) -> int {
    if is_ascii_digit_spec(c) {
        digit_value(c)
    } else if 'a' <= c && c <= 'f' {
        c as int - 'a' as int + 10
    } else {
        c as int - 'A' as int + 10
    }
}

pub open spec fn all_hex(s: Seq<char>) -> bool {
    forall|i: int| 0 <= i < s.len() ==> is_hex_digit(#[trigger] s[i])
}

/// The number written by a sequence of hexadecimal digits.
pub open spec fn hex_value(s: Seq<char>) -> int
    decreases s.len(),
{
    if s.len() == 0 {
        0
    } else {
        hex_value(s.drop_last()) * 16 + hex_digit_value(s.last())
    }
}

proof fn lemma_hex_value_bounds(s: Seq<char>, k: int)
    requires
        0 <= k <= s.len(),
        all_hex(s),
    ensures
        0 <= hex_value(s.take(k)) <= hex_value(s),
    decreases s.len(),
{
    if s.len() == 0 {
        assert(s.take(k) =~= s);
    } else if k == s.len() {
        assert(s.take(k) =~= s);
        lemma_hex_value_bounds(s.drop_last(), s.len() - 1);
        assert(s.drop_last().take(s.len() - 1) =~= s.drop_last());
    } else {
        assert(all_hex(s.drop_last()));
        lemma_hex_value_bounds(s.drop_last(), k);
        assert(s.drop_last().take(k) =~= s.take(k));
        lemma_hex_value_bounds(s.drop_last(), s.len() - 1);
        assert(s.drop_last().take(s.len() - 1) =~= s.drop_last());
    }
}

/// A hexadecimal `u32` as `u32::from_str_radix(s, 16)` reads it: an
/// optional `+`, then at least one hexadecimal digit, the value fitting.
pub open spec fn spec_parse_hex32(s: Seq<char>) -> Option<u32> {
    let d = decimal_digits(s);
    if d.len() > 0 && all_hex(d) && hex_value(d) <= u32::MAX {
        Some(hex_value(d) as u32)
    } else {
        None
    }
}

fn hex_digit(c: char) -> (r: Option<u32>)
    ensures
        is_hex_digit(c) ==> r == Some(hex_digit_value(c) as u32),
        !is_hex_digit(c) ==> r is None,
{
    if '0' <= c && c <= '9' {
        Some(c as u32 - '0' as u32)
    } else if 'a' <= c && c <= 'f' {
        Some(c as u32 - 'a' as u32 + 10)
    } else if 'A' <= c && c <= 'F' {
        Some(c as u32 - 'A' as u32 + 10)
    } else {
        None
    }
}

/// Reads a hexadecimal `u32` (see `spec_parse_hex32`).
pub fn parse_hex32(s: &[char]) -> (r: Option<u32>)
    ensures
        r == spec_parse_hex32(s@),
{
    let mut start: usize = 0;
    if s.len() > 0 && s[0] == '+' {
        start = 1;
    }
    let ghost d = decimal_digits(s@);
    assert(d =~= s@.subrange(start as int, s@.len() as int));
    if start >= s.len() {
        return None;
    }
    let mut value: u64 = 0;
    let mut i: usize = start;
    while i < s.len()
        invariant
            start <= i <= s@.len(),
            d == decimal_digits(s@),
            d =~= s@.subrange(start as int, s@.len() as int),
            all_hex(d.take(i - start)),
            value as int == hex_value(d.take(i - start)),
            value <= u32::MAX,
        decreases s.len() - i,
    {
        let c = s[i];
        let dv: u32 = match hex_digit(c) {
            None => {
                proof {
                    assert(d[i - start] == c);
                    assert(!all_hex(d));
                }
                return None;
            },
            Some(x) => x,
        };
        let next: u64 = value * 16 + dv as u64;
        proof {
            let k: int = i - start;
            assert(d.take(k + 1).drop_last() =~= d.take(k));
            assert(d.take(k + 1).last() == c);
            assert(all_hex(d.take(k + 1)));
        }
        if next > u32::MAX as u64 {
            proof {
                if all_hex(d) {
                    lemma_hex_value_bounds(d, i - start + 1);
                }
            }
            return None;
        }
        value = next;
        i += 1;
    }
    assert(d.take(i - start) =~= d);
    Some(value as u32)
}

// ---------------------------------------------------------------------
// IPv4
// ---------------------------------------------------------------------

/// One part of a dotted quad: one to three digits, no leading zero, at
/// most 255.
pub open spec fn octet_ok(p: Seq<char>) -> bool {
    &&& 1 <= p.len() <= 3
    &&& all_digits(p)
    &&& (p.len() == 1 || p[0] != '0')
    &&& decimal_value(p) <= 255
}

/// The address written as a dotted quad, as `Ipv4Addr::from_str` reads
/// it: four parts, each `octet_ok`; the value has the first part in its
/// top byte.
pub open spec fn spec_parse_ipv4(s: Seq<char>) -> Option<u32> {
    let p = pieces(s, '.');
    if p.len() == 4 && octet_ok(p[0]) && octet_ok(p[1]) && octet_ok(p[2]) && octet_ok(p[3]) {
        Some(
            (((decimal_value(p[0]) * 256 + decimal_value(p[1])) * 256 + decimal_value(p[2])) * 256 + decimal_value(
                p[3],
            )) as u32,
        )
    } else {
        None
    }
}

fn read_octet(p: &[char]) -> (r: Option<u32>)
    ensures
        octet_ok(p@) ==> r == Some(decimal_value(p@) as u32),
        !octet_ok(p@) ==> r is None,
        r matches Some(v) ==> v <= 255 && v as int == decimal_value(p@),
{
    if p.len() < 1 || p.len() > 3 {
        return None;
    }
    if p.len() > 1 && p[0] == '0' {
        return None;
    }
    let mut value: u32 = 0;
    let mut i: usize = 0;
    while i < p.len()
        invariant
            1 <= p@.len() <= 3,
            i <= p@.len(),
            all_digits(p@.take(i as int)),
            value as int == decimal_value(p@.take(i as int)),
            value < 1000,
            i == 0 ==> value == 0,
            i == 1 ==> value < 10,
            i == 2 ==> value < 100,
        decreases p.len() - i,
    {
        let c = p[i];
        if !('0' <= c && c <= '9') {
            proof {
                assert(!all_digits(p@)) by {
                    assert(!is_ascii_digit_spec(p@[i as int]));
                }
            }
            return None;
        }
        proof {
            assert(p@.take(i + 1).drop_last() =~= p@.take(i as int));
            assert(p@.take(i + 1).last() == c);
        }
        value = value * 10 + (c as u32 - '0' as u32);
        i += 1;
    }
    assert(p@.take(i as int) =~= p@);
    if value > 255 {
        return None;
    }
    Some(value)
}

/// Reads a dotted quad (see `spec_parse_ipv4`).
pub fn parse_ipv4(s: &[char]) -> (r: Option<u32>)
    ensures
        r == spec_parse_ipv4(s@),
{
    let parts = split_on(s, '.');
    proof {
        assert(vecs_view(parts@).len() == parts@.len());
    }
    if parts.len() != 4 {
        return None;
    }
    proof {
        assert(parts@[0]@ == pieces(s@, '.')[0]);
        assert(parts@[1]@ == pieces(s@, '.')[1]);
        assert(parts@[2]@ == pieces(s@, '.')[2]);
        assert(parts@[3]@ == pieces(s@, '.')[3]);
    }
    let a = match read_octet(parts[0].as_slice()) {
        Some(v) => v,
        None => {
            return None;
        },
    };
    let b = match read_octet(parts[1].as_slice()) {
        Some(v) => v,
        None => {
            return None;
        },
    };
    let c = match read_octet(parts[2].as_slice()) {
        Some(v) => v,
        None => {
            return None;
        },
    };
    let d = match read_octet(parts[3].as_slice()) {
        Some(v) => v,
        None => {
            return None;
        },
    };
    assert(((a as int * 256 + b as int) * 256 + c as int) * 256 + d as int <= 0xffff_ffff) by (nonlinear_arith)
        requires
            a <= 255,
            b <= 255,
            c <= 255,
            d <= 255,
    ;
    let ghost p = pieces(s@, '.');
    assert(p.len() == 4);
    assert(octet_ok(p[0]) && octet_ok(p[1]) && octet_ok(p[2]) && octet_ok(p[3]));
    assert(decimal_value(p[0]) == a && decimal_value(p[1]) == b && decimal_value(p[2]) == c && decimal_value(p[3]) == d);
    Some(((a * 256 + b) * 256 + c) * 256 + d)
}


// ---------------------------------------------------------------------
// IPv6
// ---------------------------------------------------------------------

/// One group of an IPv6 address: one to four hexadecimal digits.
pub open spec fn group_ok(p: Seq<char>) -> bool {
    1 <= p.len() <= 4 && all_hex(p)
}

/// The sixteen-bit groups that one unit of an IPv6 address stands for: a
/// group, or, when it holds a dot, a dotted quad, which stands for two.
pub open spec fn unit_groups(p: Seq<char>) -> Option<Seq<u16>> {
    if p.contains('.') {
        match spec_parse_ipv4(p) {
            Some(a) => Some(seq![(a / 65536) as u16, (a % 65536) as u16]),
            None => None,
        }
    } else if group_ok(p) {
        Some(seq![hex_value(p) as u16])
    } else {
        None
    }
}

/// The groups written by a list of units: every unit but the last is a
/// group; the last may also be a dotted quad.
pub open spec fn units_groups(us: Seq<Seq<char>>) -> Option<Seq<u16>>
    decreases us.len(),
{
    if us.len() == 0 {
        Some(seq![])
    } else if us.len() == 1 {
        unit_groups(us[0])
    } else if group_ok(us[0]) {
        match units_groups(us.drop_first()) {
            Some(g) => Some(seq![hex_value(us[0]) as u16] + g),
            None => None,
        }
    } else {
        None
    }
}

/// The colon-separated units of a run of text; none when it is empty.
pub open spec fn units_of(t: Seq<char>) -> Seq<Seq<char>> {
    if t.len() == 0 {
        seq![]
    } else {
        pieces(t, ':')
    }
}

/// Where `::` first occurs in `s`; the length of `s` when it does not.
pub open spec fn double_colon(s: Seq<char>) -> int
    decreases s.len(),
{
    if s.len() < 2 {
        s.len() as int
    } else if s[0] == ':' && s[1] == ':' {
        0
    } else {
        1 + double_colon(s.drop_first())
    }
}

/// The number made of sixteen-bit groups, the first in the top bits.
pub open spec fn groups_value(g: Seq<u16>) -> int
    decreases g.len(),
{
    if g.len() == 0 {
        0
    } else {
        groups_value(g.drop_last()) * 65536 + g.last()
    }
}

/// `n` groups of zeros.
pub open spec fn zero_groups(n: int) -> Seq<u16> {
    Seq::new(n as nat, |k: int| 0u16)
}

/// The address written in the text form of IPv6, as `Ipv6Addr::from_str`
/// reads it: eight groups separated by colons (the last two may be
/// written as a dotted quad); or, around the first `::`, at most seven
/// groups in all, a dotted quad only at the very end, the groups left out
/// being zero.
pub open spec fn spec_parse_ipv6(s: Seq<char>) -> Option<u128> {
    let i = double_colon(s);
    if i >= s.len() {
        match units_groups(units_of(s)) {
            Some(g) => if g.len() == 8 {
                Some(groups_value(g) as u128)
            } else {
                None
            },
            None => None,
        }
    } else {
        let h = s.take(i);
        let t = s.skip(i + 2);
        match (units_groups(units_of(h)), units_groups(units_of(t))) {
            (Some(hg), Some(tg)) => if !h.contains('.') && hg.len() + tg.len() <= 7 {
                Some(groups_value(hg + zero_groups(8 - hg.len() - tg.len()) + tg) as u128)
            } else {
                None
            },
            _ => None,
        }
    }
}

proof fn lemma_double_colon(s: Seq<char>)
    ensures
        0 <= double_colon(s) <= s.len(),
        double_colon(s) < s.len() ==> double_colon(s) + 1 < s.len() && s[double_colon(s)] == ':' && s[double_colon(s) + 1]
            == ':',
        forall|k: int| 0 <= k < double_colon(s) && k + 1 < s.len() ==> !(#[trigger] s[k] == ':' && s[k + 1] == ':'),
    decreases s.len(),
{
    if s.len() >= 2 && !(s[0] == ':' && s[1] == ':') {
        lemma_double_colon(s.drop_first());
        assert forall|k: int| 0 <= k < double_colon(s) && k + 1 < s.len() implies !(#[trigger] s[k] == ':' && s[k + 1] == ':') by {
            if k > 0 {
                assert(s[k] == s.drop_first()[k - 1]);
                assert(s[k + 1] == s.drop_first()[k]);
            }
        }
    }
}

/// Finds the first `::` (see `double_colon`).
fn find_double_colon(s: &[char]) -> (r: usize)
    ensures
        r == double_colon(s@),
{
    proof {
        lemma_double_colon(s@);
    }
    if s.len() < 2 {
        return s.len();
    }
    let mut i: usize = 0;
    while i < s.len() - 1
        invariant
            s@.len() >= 2,
            i <= s@.len(),
            forall|k: int| 0 <= k < i && k + 1 < s@.len() ==> !(#[trigger] s@[k] == ':' && s@[k + 1] == ':'),
            0 <= double_colon(s@) <= s@.len(),
            double_colon(s@) < s@.len() ==> double_colon(s@) + 1 < s@.len() && s@[double_colon(s@)] == ':'
                && s@[double_colon(s@) + 1] == ':',
            forall|k: int| 0 <= k < double_colon(s@) && k + 1 < s@.len() ==> !(#[trigger] s@[k] == ':' && s@[k + 1] == ':'),
        decreases s.len() - i,
    {
        if s[i] == ':' && s[i + 1] == ':' {
            return i;
        }
        i += 1;
    }
    s.len()
}

fn read_group(p: &[char]) -> (r: Option<u16>)
    ensures
        group_ok(p@) ==> r == Some(hex_value(p@) as u16),
        !group_ok(p@) ==> r is None,
{
    if p.len() < 1 || p.len() > 4 {
        return None;
    }
    let mut value: u32 = 0;
    let mut i: usize = 0;
    while i < p.len()
        invariant
            1 <= p@.len() <= 4,
            i <= p@.len(),
            all_hex(p@.take(i as int)),
            value as int == hex_value(p@.take(i as int)),
            i == 0 ==> value == 0,
            i == 1 ==> value < 16,
            i == 2 ==> value < 256,
            i == 3 ==> value < 4096,
            i == 4 ==> value < 65536,
        decreases p.len() - i,
    {
        let c = p[i];
        let dv: u32 = match hex_digit(c) {
            None => {
                proof {
                    assert(!all_hex(p@)) by {
                        assert(!is_hex_digit(p@[i as int]));
                    }
                }
                return None;
            },
            Some(x) => x,
        };
        proof {
            assert(p@.take(i + 1).drop_last() =~= p@.take(i as int));
            assert(p@.take(i + 1).last() == c);
        }
        value = value * 16 + dv;
        i += 1;
    }
    assert(p@.take(i as int) =~= p@);
    Some(value as u16)
}

/// The groups of one unit (see `unit_groups`).
fn read_unit(p: &[char]) -> (r: Option<Vec<u16>>)
    ensures
        match unit_groups(p@) {
            Some(g) => r matches Some(v) && v@ == g,
            None => r is None,
        },
{
    if has_char(p, '.') {
        match parse_ipv4(p) {
            Some(a) => {
                let mut v: Vec<u16> = Vec::new();
                v.push((a / 65536) as u16);
                v.push((a % 65536) as u16);
                assert(v@ =~= seq![(a / 65536) as u16, (a % 65536) as u16]);
                Some(v)
            },
            None => None,
        }
    } else {
        match read_group(p) {
            Some(g) => {
                let mut v: Vec<u16> = Vec::new();
                v.push(g);
                assert(v@ =~= seq![g]);
                Some(v)
            },
            None => None,
        }
    }
}

/// Puts groups `a` before those of an outcome.
pub open spec fn groups_before(a: Seq<u16>, o: Option<Seq<u16>>) -> Option<Seq<u16>> {
    match o {
        Some(g) => Some(a + g),
        None => None,
    }
}

/// The groups of a list of units (see `units_groups`).
fn read_units(us: &Vec<Vec<char>>) -> (r: Option<Vec<u16>>)
    ensures
        match units_groups(vecs_view(us@)) {
            Some(g) => r matches Some(v) && v@ == g,
            None => r is None,
        },
{
    let ghost u = vecs_view(us@);
    if us.len() == 0 {
        return Some(Vec::new());
    }
    let mut acc: Vec<u16> = Vec::new();
    let mut k: usize = 0;
    proof {
        assert(u.skip(0) =~= u);
        match units_groups(u) {
            Some(g) => {
                assert(Seq::<u16>::empty() + g =~= g);
            },
            None => {},
        }
    }
    while k + 1 < us.len()
        invariant
            u == vecs_view(us@),
            u.len() == us@.len(),
            us@.len() >= 1,
            k < us@.len(),
            units_groups(u) == groups_before(acc@, units_groups(u.skip(k as int))),
        decreases us.len() - k,
    {
        let ghost rest = u.skip(k as int);
        assert(rest[0] == us@[k as int]@);
        assert(rest.drop_first() =~= u.skip(k + 1));
        match read_group(us[k].as_slice()) {
            None => {
                return None;
            },
            Some(g) => {
                let ghost a0 = acc@;
                acc.push(g);
                proof {
                    match units_groups(u.skip(k + 1)) {
                        Some(gs) => {
                            assert(a0 + (seq![g] + gs) =~= acc@ + gs);
                        },
                        None => {},
                    }
                }
            },
        }
        k += 1;
    }
    let ghost rest = u.skip(k as int);
    assert(rest.len() == 1);
    assert(rest[0] == us@[k as int]@);
    match read_unit(us[k].as_slice()) {
        None => None,
        Some(last) => {
            let mut i: usize = 0;
            let ghost a0 = acc@;
            while i < last.len()
                invariant
                    i <= last@.len(),
                    acc@ == a0 + last@.take(i as int),
                decreases last.len() - i,
            {
                acc.push(last[i]);
                i += 1;
                assert(acc@ =~= a0 + last@.take(i as int));
            }
            assert(last@.take(i as int) =~= last@);
            Some(acc)
        },
    }
}

/// The units of a run of text (see `units_of`).
fn units_from(t: &[char]) -> (r: Vec<Vec<char>>)
    ensures
        vecs_view(r@) == units_of(t@),
{
    if t.len() == 0 {
        let r: Vec<Vec<char>> = Vec::new();
        assert(vecs_view(r@) =~= Seq::<Seq<char>>::empty());
        r
    } else {
        split_on(t, ':')
    }
}

/// A bound on the value of `n` groups.
pub open spec fn group_bound(n: nat) -> int
    decreases n,
{
    if n == 0 {
        1
    } else {
        group_bound((n - 1) as nat) * 65536
    }
}

/// The number made of eight groups (see `groups_value`).
fn groups_number(g: &Vec<u16>) -> (r: u128)
    requires
        g@.len() == 8,
    ensures
        r as int == groups_value(g@),
{
    assert(group_bound(8) == 0x1_0000_0000_0000_0000_0000_0000_0000_0000int) by {
        reveal_with_fuel(group_bound, 9);
    }
    let mut acc: u128 = 0;
    let mut k: usize = 0;
    while k < 8
        invariant
            g@.len() == 8,
            k <= 8,
            acc as int == groups_value(g@.take(k as int)),
            0 <= acc < group_bound(k as nat),
            group_bound(8) == 0x1_0000_0000_0000_0000_0000_0000_0000_0000int,
        decreases 8 - k,
    {
        let x: u16 = g[k];
        proof {
            assert(g@.take(k + 1).drop_last() =~= g@.take(k as int));
            assert(g@.take(k + 1).last() == x);
            let b = group_bound(k as nat);
            assert(group_bound((k + 1) as nat) == b * 65536);
            assert(acc * 65536 + x < b * 65536) by (nonlinear_arith)
                requires
                    acc < b,
                    x < 65536,
            ;
            lemma_group_bound_mono(k as nat + 1, 8);
        }
        acc = acc * 65536 + x as u128;
        k += 1;
    }
    assert(g@.take(8) =~= g@);
    acc
}

proof fn lemma_group_bound_pos(n: nat)
    ensures
        group_bound(n) >= 1,
    decreases n,
{
    if n > 0 {
        lemma_group_bound_pos((n - 1) as nat);
    }
}

proof fn lemma_group_bound_mono(a: nat, b: nat)
    requires
        a <= b,
    ensures
        1 <= group_bound(a) <= group_bound(b),
    decreases b,
{
    lemma_group_bound_pos(a);
    if a < b {
        lemma_group_bound_mono(a, (b - 1) as nat);
        lemma_group_bound_pos((b - 1) as nat);
    }
}

/// Reads the text form of an IPv6 address (see `spec_parse_ipv6`).
pub fn parse_ipv6(s: &[char]) -> (r: Option<u128>)
    ensures
        r == spec_parse_ipv6(s@),
{
    let i = find_double_colon(s);
    proof {
        lemma_double_colon(s@);
    }
    if i >= s.len() {
        let us = units_from(s);
        match read_units(&us) {
            None => None,
            Some(g) => if g.len() == 8 {
                Some(groups_number(&g))
            } else {
                None
            },
        }
    } else {
        let h = sub_chars(s, 0, i);
        let t = sub_chars(s, i + 2, s.len());
        assert(h@ =~= s@.take(i as int));
        assert(t@ =~= s@.skip(i + 2));
        let hu = units_from(h.as_slice());
        let tu = units_from(t.as_slice());
        let hg = match read_units(&hu) {
            None => {
                return None;
            },
            Some(g) => g,
        };
        let tg = match read_units(&tu) {
            None => {
                return None;
            },
            Some(g) => g,
        };
        if has_char(h.as_slice(), '.') || hg.len() > 7 || tg.len() > 7 - hg.len() {
            return None;
        }
        let mut all: Vec<u16> = Vec::new();
        let mut k: usize = 0;
        while k < hg.len()
            invariant
                k <= hg@.len(),
                all@ == hg@.take(k as int),
            decreases hg.len() - k,
        {
            all.push(hg[k]);
            k += 1;
            assert(all@ =~= hg@.take(k as int));
        }
        let zeros: usize = 8 - hg.len() - tg.len();
        let mut z: usize = 0;
        while z < zeros
            invariant
                z <= zeros,
                zeros == 8 - hg@.len() - tg@.len(),
                hg@.len() + tg@.len() <= 7,
                all@ == hg@ + zero_groups(z as int),
            decreases zeros - z,
        {
            all.push(0u16);
            z += 1;
            assert(all@ =~= hg@ + zero_groups(z as int));
        }
        let mut j: usize = 0;
        while j < tg.len()
            invariant
                j <= tg@.len(),
                hg@.len() + tg@.len() <= 7,
                all@ == hg@ + zero_groups(8 - hg@.len() - tg@.len()) + tg@.take(j as int),
            decreases tg.len() - j,
        {
            all.push(tg[j]);
            j += 1;
            assert(all@ =~= hg@ + zero_groups(8 - hg@.len() - tg@.len()) + tg@.take(j as int));
        }
        assert(tg@.take(j as int) =~= tg@);
        assert(all@.len() == 8);
        Some(groups_number(&all))
    }
}


// ---------------------------------------------------------------------
// Either family, and socket addresses
// ---------------------------------------------------------------------

/// An address as `IpAddr::from_str` reads it: a dotted quad, or else the
/// text form of IPv6.
pub open spec fn spec_parse_ip(s: Seq<char>) -> Option<AllAddr> {
    match spec_parse_ipv4(s) {
        Some(a) => Some(AllAddr::V4(a)),
        None => match spec_parse_ipv6(s) {
            Some(b) => Some(AllAddr::V6(b)),
            None => None,
        },
    }
}

/// Reads an address of either family (see `spec_parse_ip`).
pub fn parse_ip(s: &[char]) -> (r: Option<AllAddr>)
    ensures
        r == spec_parse_ip(s@),
{
    match parse_ipv4(s) {
        Some(a) => Some(AllAddr::V4(a)),
        None => match parse_ipv6(s) {
            Some(b) => Some(AllAddr::V6(b)),
            None => None,
        },
    }
}

/// A port as a socket address writes it: one or more ASCII digits (no
/// sign), at most 65535.
pub open spec fn spec_port(p: Seq<char>) -> Option<u16> {
    if p.len() > 0 && all_digits(p) && decimal_value(p) <= 65535 {
        Some(decimal_value(p) as u16)
    } else {
        None
    }
}

fn read_port(p: &[char]) -> (r: Option<u16>)
    ensures
        r == spec_port(p@),
{
    if p.len() == 0 || p[0] == '+' {
        proof {
            if p@.len() > 0 {
                assert(!is_ascii_digit_spec(p@[0]));
            }
        }
        return None;
    }
    assert(decimal_digits(p@) == p@);
    match parse_dec(p, 65535) {
        Some(x) => Some(x as u16),
        None => None,
    }
}

/// A scope identifier after `%`: one or more ASCII digits, fitting a `u32`.
pub open spec fn scope_ok(p: Seq<char>) -> bool {
    p.len() > 0 && all_digits(p) && decimal_value(p) <= u32::MAX
}

/// A socket address as `SocketAddr::from_str` reads it: a dotted quad, a
/// colon and a port; or an IPv6 address in square brackets (perhaps with
/// `%` and a numeric scope after it, which is not kept), a colon and a
/// port.
pub open spec fn spec_parse_sock(s: Seq<char>) -> Option<MySockAddr> {
    let c = first_index(s, ':');
    let v4 = if c < s.len() {
        match (spec_parse_ipv4(s.take(c)), spec_port(s.skip(c + 1))) {
            (Some(a), Some(p)) => Some(MySockAddr { ip: AllAddr::V4(a), port: p }),
            _ => None,
        }
    } else {
        None
    };
    if v4 is Some {
        v4
    } else if s.len() > 0 && s[0] == '[' {
        let j = first_index(s, ']');
        let inner = s.subrange(1, j);
        let rest = s.skip(j + 1);
        let pc = first_index(inner, '%');
        if j < s.len() && rest.len() > 0 && rest[0] == ':' && (pc == inner.len() || scope_ok(inner.skip(pc + 1))) {
            match (spec_parse_ipv6(inner.take(pc)), spec_port(rest.skip(1))) {
                (Some(a), Some(p)) => Some(MySockAddr { ip: AllAddr::V6(a), port: p }),
                _ => None,
            }
        } else {
            None
        }
    } else {
        None
    }
}

/// Reads a socket address (see `spec_parse_sock`).
pub fn parse_sock(s: &[char]) -> (r: Option<MySockAddr>)
    ensures
        r == spec_parse_sock(s@),
{
    proof {
        lemma_first_index(s@, ':');
        lemma_first_index(s@, ']');
    }
    let c = find_char(s, ':');
    if c < s.len() {
        let head = sub_chars(s, 0, c);
        let tail = sub_chars(s, c + 1, s.len());
        assert(head@ =~= s@.take(c as int));
        assert(tail@ =~= s@.skip(c + 1));
        match (parse_ipv4(head.as_slice()), read_port(tail.as_slice())) {
            (Some(a), Some(p)) => {
                return Some(MySockAddr { ip: AllAddr::V4(a), port: p });
            },
            _ => {},
        }
    }
    if s.len() == 0 || s[0] != '[' {
        return None;
    }
    let j = find_char(s, ']');
    if j >= s.len() {
        return None;
    }
    let inner = sub_chars(s, 1, j);
    let rest = sub_chars(s, j + 1, s.len());
    assert(rest@ =~= s@.skip(j + 1));
    if rest.len() == 0 || rest[0] != ':' {
        return None;
    }
    proof {
        lemma_first_index(inner@, '%');
    }
    let pc = find_char(inner.as_slice(), '%');
    if pc < inner.len() {
        let scope = sub_chars(inner.as_slice(), pc + 1, inner.len());
        assert(scope@ =~= inner@.skip(pc + 1));
        if scope.len() == 0 || scope[0] == '+' {
            proof {
                if scope@.len() > 0 {
                    assert(!is_ascii_digit_spec(scope@[0]));
                }
            }
            return None;
        }
        assert(decimal_digits(scope@) == scope@);
        if parse_dec(scope.as_slice(), 0xffff_ffff).is_none() {
            return None;
        }
    }
    let v = sub_chars(inner.as_slice(), 0, pc);
    assert(v@ =~= inner@.take(pc as int));
    let port_text = sub_chars(rest.as_slice(), 1, rest.len());
    assert(port_text@ =~= rest@.skip(1));
    match (parse_ipv6(v.as_slice()), read_port(port_text.as_slice())) {
        (Some(a), Some(p)) => Some(MySockAddr { ip: AllAddr::V6(a), port: p }),
        _ => None,
    }
}


/// A listening address as the configuration reads it: a socket address,
/// or else an address alone, with the DNS port.
pub open spec fn spec_sock_or_ip(s: Seq<char>) -> Option<MySockAddr> {
    match spec_parse_sock(s) {
        Some(a) => Some(a),
        None => match spec_parse_ip(s) {
            Some(ip) => Some(MySockAddr { ip, port: 53 }),
            None => None,
        },
    }
}

/// Reads a listening address (see `spec_sock_or_ip`).
pub fn parse_sock_or_ip(s: &[char]) -> (r: Option<MySockAddr>)
    ensures
        r == spec_sock_or_ip(s@),
{
    match parse_sock(s) {
        Some(a) => Some(a),
        None => match parse_ip(s) {
            Some(ip) => Some(MySockAddr { ip, port: 53 }),
            None => None,
        },
    }
}

} // verus!
