//! Small helpers shared by the DNS and DHCP code: big-endian integer
//! reading and writing, character classes for host names, time
//! differences and the random query identifiers.

use vstd::prelude::*;

verus! {

// ---------------------------------------------------------------------
// Time
// ---------------------------------------------------------------------

/// A point in time, counted from the Unix epoch.
#[derive(Clone, Copy, Debug, PartialEq, Eq, Structural)]
pub struct Time {
    pub secs: u64,
    pub nanos: u32,
}

impl Time {
    pub open spec fn wf(self) -> bool {
        self.nanos < 1_000_000_000
    }

    /// The instant in nanoseconds since the epoch.
    pub open spec fn total_nanos(self) -> int {
        self.secs as int * 1_000_000_000 + self.nanos as int
    }

    /// The epoch itself.
    pub fn epoch() -> (t: Time)
        ensures
            t.secs == 0,
            t.nanos == 0,
    {
        Time { secs: 0, nanos: 0 }
    }

    /// A time of whole seconds since the epoch.
    pub fn from_secs(secs: u64) -> (t: Time)
        ensures
            t.secs == secs,
            t.nanos == 0,
    {
        Time { secs, nanos: 0 }
    }
}

/// Whether `a` comes strictly before `b`.
pub open spec fn time_lt(a: Time, b: Time) -> bool {
    a.secs < b.secs || (a.secs == b.secs && a.nanos < b.nanos)
}

/// Compares two points in time.
pub fn time_before(a: Time, b: Time) -> (r: bool)
    ensures
        r == time_lt(a, b),
{
    a.secs < b.secs || (a.secs == b.secs && a.nanos < b.nanos)
}

/// Whole seconds of a non-negative duration given in nanoseconds.
pub open spec fn whole_secs(nanos: int) -> int {
    nanos / 1_000_000_000
}

/// Seconds from `ttd` to `now`: positive when `now` is later, negative when
/// it is earlier, rounded towards zero.
pub open spec fn spec_difftime(now: Time, ttd: Time) -> int {
    let d: int = now.total_nanos() - ttd.total_nanos();
    if d >= 0 {
        whole_secs(d)
    } else {
        -whole_secs(-d)
    }
}

pub(crate) proof fn lemma_whole_secs_split(s: int, n: int)
    requires
        s >= 0,
        -1_000_000_000 < n < 1_000_000_000,
        s * 1_000_000_000 + n >= 0,
    ensures
        n >= 0 ==> whole_secs(s * 1_000_000_000 + n) == s,
        n < 0 ==> whole_secs(s * 1_000_000_000 + n) == s - 1,
{
    if n >= 0 {
        assert((s * 1_000_000_000 + n) / 1_000_000_000 == s) by (nonlinear_arith)
            requires
                s >= 0,
                0 <= n < 1_000_000_000,
        ;
    } else {
        assert((s * 1_000_000_000 + n) / 1_000_000_000 == s - 1) by (nonlinear_arith)
            requires
                s >= 1,
                -1_000_000_000 < n < 0,
        ;
    }
}

/// The difference `now - ttd` in whole seconds, negative when `ttd` lies in
/// the future.
pub fn difftime(now: Time, ttd: Time) -> (d: i64)
    requires
        now.wf(),
        ttd.wf(),
        now.secs <= i64::MAX as u64,
        ttd.secs <= i64::MAX as u64,
    ensures
        d as int == spec_difftime(now, ttd),
{
    if now.secs > ttd.secs || (now.secs == ttd.secs && now.nanos >= ttd.nanos) {
        let s: u64 = now.secs - ttd.secs;
        proof {
            let n: int = now.nanos as int - ttd.nanos as int;
            assert(now.total_nanos() - ttd.total_nanos() == s as int * 1_000_000_000 + n)
                by (nonlinear_arith)
                requires
                    s == now.secs - ttd.secs,
                    n == now.nanos - ttd.nanos,
            ;
            lemma_whole_secs_split(s as int, n);
        }
        if now.nanos >= ttd.nanos {
            s as i64
        } else {
            (s - 1) as i64
        }
    } else {
        let s: u64 = ttd.secs - now.secs;
        proof {
            let n: int = ttd.nanos as int - now.nanos as int;
            assert(ttd.total_nanos() - now.total_nanos() == s as int * 1_000_000_000 + n)
                by (nonlinear_arith)
                requires
                    s == ttd.secs - now.secs,
                    n == ttd.nanos - now.nanos,
            ;
            lemma_whole_secs_split(s as int, n);
        }
        if ttd.nanos >= now.nanos {
            -(s as i64)
        } else {
            -((s - 1) as i64)
        }
    }
}

/// Whole seconds since the epoch; every `Time` lies after the epoch.
pub fn system_time_to_u64(t: Time) -> (r: Option<u64>)
    ensures
        r == Some(t.secs),
{
    Some(t.secs)
}

// ---------------------------------------------------------------------
// Random identifiers
// ---------------------------------------------------------------------

/// Draws four bytes from the operating system's generator (`OsRng` of
/// `rand`, through `RngCore::try_fill_bytes`) and reads them as a
/// little-endian word; `None` where the generator reports an error.
/// Nothing is promised of the value: it depends on chance alone.
#[verifier::external_body]
fn random_u32() -> (r: Option<u32>) {
    let mut b: [u8; 4] = [0u8; 4];
    match rand::RngCore::try_fill_bytes(&mut rand::rngs::OsRng, &mut b) {
        Ok(()) => Some(u32::from_le_bytes(b)),
        Err(_) => None,
    }
}

/// The 16-bit identifier derived from a raw random word: bits 15 to 30.
pub open spec fn spec_rand16_of(raw: u32) -> u16 {
    ((raw as int / 32768) % 65536) as u16
}

/// Derives the 16-bit random value from a raw random word.
pub fn rand16_of(raw: u32) -> (r: u16)
    ensures
        r == spec_rand16_of(raw),
{
    let r: u16 = (raw >> 15) as u16;
    assert(r == ((raw as int / 32768) % 65536) as u16) by (bit_vector)
        requires
            r == (raw >> 15) as u16,
    ;
    r
}

/// A random 16-bit value: bits 15 to 30 of a random word; `None` where
/// no random word could be drawn.
pub fn rand16() -> (r: Option<u16>)
    ensures
        r matches Some(v) ==> exists|raw: u32| v == spec_rand16_of(raw),
{
    match random_u32() {
        Some(raw) => Some(rand16_of(raw)),
        None => None,
    }
}

// ---------------------------------------------------------------------
// Characters of host names
// ---------------------------------------------------------------------

pub open spec fn is_ascii_digit_spec(c: char) -> bool {
    '0' <= c && c <= '9'
}

pub open spec fn is_ascii_alnum_spec(c: char) -> bool {
    ||| ('a' <= c && c <= 'z')
    ||| ('A' <= c && c <= 'Z')
    ||| is_ascii_digit_spec(c)
}

/// Characters allowed in a label of a host name.
pub open spec fn spec_legal_char(c: char) -> bool {
    is_ascii_alnum_spec(c) || c == '-' || c == '/' || c == '_'
}

/// Whether `c` may appear in a host name label.
pub fn legal_char(c: char) -> (b: bool)
    ensures
        b == spec_legal_char(c),
{
    ('a' <= c && c <= 'z') || ('A' <= c && c <= 'Z') || ('0' <= c && c <= '9') || c == '-' || c
        == '/' || c == '_'
}

/// A host name is acceptable when it holds only dots and legal characters.
pub open spec fn spec_canonical(s: Seq<char>) -> bool {
    forall|i: int| 0 <= i < s.len() ==> s[i] == '.' || spec_legal_char(#[trigger] s[i])
}

/// The characters of a string, in order.
pub fn str_chars(s: &str) -> (v: Vec<char>)
    ensures
        v@ == s@,
{
    let mut v: Vec<char> = Vec::new();
    for c in it: s.chars()
        invariant
            v@ == it.seq().take(it.index() as int),
            it.seq() == s@,
    {
        v.push(c);
    }
    v
}

/// Builds a `String` from its characters.
#[verifier::external_body]
pub(crate) fn string_from_chars(chars: &[char]) -> (s: String)
    ensures
        s@ == chars@,
{
    chars.iter().collect::<String>()
}

/// The text that `String::from_utf8_lossy` reads from some bytes.
pub uninterp spec fn utf8_lossy(bytes: Seq<u8>) -> Seq<char>;

/// Reads bytes as UTF-8 text with `String::from_utf8_lossy`, which puts
/// U+FFFD in place of each invalid sequence.  Stated only by name: the
/// result is the same text for the same bytes.
#[verifier::external_body]
pub(crate) fn string_from_utf8_lossy(bytes: &[u8]) -> (s: String)
    ensures
        s@ == utf8_lossy(bytes@),
{
    String::from_utf8_lossy(bytes).into_owned()
}

/// Checks that a host name holds only dots and legal characters.
pub fn canonicalise(s: &str) -> (ok: bool)
    ensures
        ok == spec_canonical(s@),
{
    let chars = str_chars(s);
    let mut i: usize = 0;
    while i < chars.len()
        invariant
            chars@ == s@,
            i <= chars.len(),
            forall|j: int| 0 <= j < i ==> chars@[j] == '.' || spec_legal_char(#[trigger] chars@[j]),
        decreases chars.len() - i,
    {
        let c = chars[i];
        if c != '.' && !legal_char(c) {
            return false;
        }
        i += 1;
    }
    true
}

/// The Unicode `White_Space` characters.
pub open spec fn spec_is_whitespace(c: char) -> bool {
    let u: u32 = c as u32;
    ||| (9 <= u && u <= 13)
    ||| u == 32
    ||| u == 0x85
    ||| u == 0xA0
    ||| u == 0x1680
    ||| (0x2000 <= u && u <= 0x200A)
    ||| u == 0x2028
    ||| u == 0x2029
    ||| u == 0x202F
    ||| u == 0x205F
    ||| u == 0x3000
}

/// Characters accepted in a dotted-decimal address list: dots, white
/// space and ASCII digits.
pub fn is_valid_char(c: char) -> (b: bool)
    ensures
        b == (c == '.' || spec_is_whitespace(c) || is_ascii_digit_spec(c)),
{
    let u: u32 = c as u32;
    let ws = (9 <= u && u <= 13) || u == 32 || u == 0x85 || u == 0xA0 || u == 0x1680 || (0x2000
        <= u && u <= 0x200A) || u == 0x2028 || u == 0x2029 || u == 0x202F || u == 0x205F || u
        == 0x3000;
    c == '.' || ws || ('0' <= c && c <= '9')
}

/// Value of a decimal digit character.
pub open spec fn digit_value(c: char) -> int {
    c as int - '0' as int
}

/// The number written by a sequence of decimal digits.
pub open spec fn decimal_value(s: Seq<char>) -> int
    decreases s.len(),
{
    if s.len() == 0 {
        0
    } else {
        decimal_value(s.drop_last()) * 10 + digit_value(s.last())
    }
}

pub open spec fn all_digits(s: Seq<char>) -> bool {
    forall|i: int| 0 <= i < s.len() ==> is_ascii_digit_spec(#[trigger] s[i])
}

/// The digits of an unsigned decimal literal: the text with an optional
/// leading `+` removed.
pub open spec fn decimal_digits(s: Seq<char>) -> Seq<char> {
    if s.len() > 0 && s[0] == '+' {
        s.drop_first()
    } else {
        s
    }
}

/// What parsing `s` as a `u32` gives: the value of its digits when it is an
/// optional `+` followed by at least one ASCII digit and the value fits.
pub open spec fn spec_parse_u32(s: Seq<char>) -> Option<u32> {
    let d = decimal_digits(s);
    if d.len() > 0 && all_digits(d) && decimal_value(d) <= u32::MAX {
        Some(decimal_value(d) as u32)
    } else {
        None
    }
}

proof fn lemma_decimal_value_monotone(s: Seq<char>, k: int)
    requires
        0 <= k <= s.len(),
        all_digits(s),
    ensures
        decimal_value(s.take(k)) <= decimal_value(s),
        decimal_value(s.take(k)) >= 0,
    decreases s.len(),
{
    if s.len() == 0 {
        assert(s.take(k) =~= s);
    } else if k == s.len() {
        assert(s.take(k) =~= s);
        lemma_decimal_value_nonneg(s);
    } else {
        assert(all_digits(s.drop_last()));
        lemma_decimal_value_monotone(s.drop_last(), k);
        assert(s.drop_last().take(k) =~= s.take(k));
        lemma_decimal_value_nonneg(s.drop_last());
    }
}

proof fn lemma_decimal_value_nonneg(s: Seq<char>)
    requires
        all_digits(s),
    ensures
        decimal_value(s) >= 0,
    decreases s.len(),
{
    if s.len() > 0 {
        assert(all_digits(s.drop_last()));
        lemma_decimal_value_nonneg(s.drop_last());
    }
}

/// Parses `s` as an unsigned decimal number that fits in a `u32`.
pub fn is_decimal(s: &str) -> (r: Option<u32>)
    ensures
        r == spec_parse_u32(s@),
{
    let chars = str_chars(s);
    let mut start: usize = 0;
    if chars.len() > 0 && chars[0] == '+' {
        start = 1;
    }
    let ghost d = decimal_digits(s@);
    assert(d =~= chars@.subrange(start as int, chars@.len() as int));
    if start >= chars.len() {
        return None;
    }
    let mut value: u64 = 0;
    let mut i: usize = start;
    while i < chars.len()
        invariant
            chars@ == s@,
            start <= i <= chars.len(),
            d == decimal_digits(s@),
            d =~= chars@.subrange(start as int, chars@.len() as int),
            all_digits(d.take(i - start)),
            value as int == decimal_value(d.take(i - start)),
            value <= u32::MAX,
        decreases chars.len() - i,
    {
        let c = chars[i];
        if !('0' <= c && c <= '9') {
            proof {
                assert(d[i - start] == c);
                assert(!is_ascii_digit_spec(d[i - start]));
                assert(!all_digits(d));
                assert(spec_parse_u32(s@) is None);
            }
            return None;
        }
        let next: u64 = value * 10 + (c as u32 - '0' as u32) as u64;
        proof {
            let k: int = i - start;
            assert(d.take(k + 1).drop_last() =~= d.take(k));
            assert(d.take(k + 1).last() == c);
            assert(all_digits(d.take(k + 1)));
        }
        if next > u32::MAX as u64 {
            proof {
                if all_digits(d) {
                    lemma_decimal_value_monotone(d, i - start + 1);
                }
            }
            return None;
        }
        value = next;
        i += 1;
    }
    assert(d.take(i - start) =~= d);
    Some(value as u32)
}

/// Whether two strings hold the same characters.
pub fn str_eq(a: &str, b: &str) -> (r: bool)
    ensures
        r == (a@ == b@),
{
    let av = str_chars(a);
    let bv = str_chars(b);
    if av.len() != bv.len() {
        return false;
    }
    let mut i: usize = 0;
    while i < av.len()
        invariant
            av@ == a@,
            bv@ == b@,
            av.len() == bv.len(),
            i <= av.len(),
            forall|j: int| 0 <= j < i ==> av@[j] == bv@[j],
        decreases av.len() - i,
    {
        if av[i] != bv[i] {
            return false;
        }
        i += 1;
    }
    assert(av@ =~= bv@);
    true
}

/// Lower-cases ASCII letters and leaves every other character alone.
pub open spec fn ascii_lower(c: char) -> char {
    if 'A' <= c && c <= 'Z' {
        ((c as u32) + 32) as char
    } else {
        c
    }
}

/// Two names are equal when they match character by character, ignoring
/// the case of ASCII letters.
pub open spec fn spec_hostname_isequal(a: Seq<char>, b: Seq<char>) -> bool {
    a.len() == b.len() && forall|i: int| 0 <= i < a.len() ==> ascii_lower(#[trigger] a[i])
        == ascii_lower(b[i])
}

fn lower_char(c: char) -> (r: char)
    ensures
        r == ascii_lower(c),
{
    if 'A' <= c && c <= 'Z' {
        let u: u32 = c as u32 + 32;
        proof {
            assert(u <= 0x7a);
        }
        let r = u as u8 as char;
        assert(r == ((c as u32) + 32) as char);
        r
    } else {
        c
    }
}

/// Compares two host names, ignoring the case of ASCII letters.
pub fn hostname_isequal(a: &str, b: &str) -> (eq: bool)
    ensures
        eq == spec_hostname_isequal(a@, b@),
{
    let av = str_chars(a);
    let bv = str_chars(b);
    if av.len() != bv.len() {
        return false;
    }
    let mut i: usize = 0;
    while i < av.len()
        invariant
            av@ == a@,
            bv@ == b@,
            av.len() == bv.len(),
            i <= av.len(),
            forall|j: int| 0 <= j < i ==> ascii_lower(#[trigger] av@[j]) == ascii_lower(bv@[j]),
        decreases av.len() - i,
    {
        if lower_char(av[i]) != lower_char(bv[i]) {
            return false;
        }
        i += 1;
    }
    true
}

// ---------------------------------------------------------------------
// Big-endian integers in byte strings
// ---------------------------------------------------------------------

/// The value of two big-endian bytes.
pub open spec fn be16_value(b0: u8, b1: u8) -> u16 {
    (b0 as int * 256 + b1 as int) as u16
}

/// The value of four big-endian bytes.
pub open spec fn be32_value(b0: u8, b1: u8, b2: u8, b3: u8) -> u32 {
    (b0 as int * 16777216 + b1 as int * 65536 + b2 as int * 256 + b3 as int) as u32
}

/// The two big-endian bytes of `s`.
pub open spec fn be16_bytes(s: u16) -> Seq<u8> {
    seq![(s as int / 256) as u8, (s as int % 256) as u8]
}

/// The four big-endian bytes of `l`.
pub open spec fn be32_bytes(l: u32) -> Seq<u8> {
    seq![
        (l as int / 16777216) as u8,
        ((l as int / 65536) % 256) as u8,
        ((l as int / 256) % 256) as u8,
        (l as int % 256) as u8,
    ]
}

/// Reads a big-endian 16-bit value and advances the slice past it.
pub fn get_short(cp: &mut &[u8]) -> (value: u16)
    requires
        old(cp)@.len() >= 2,
    ensures
        value == be16_value(old(cp)@[0], old(cp)@[1]),
        final(cp)@ == old(cp)@.subrange(2, old(cp)@.len() as int),
{
    let b0: u8 = cp[0];
    let b1: u8 = cp[1];
    let value: u16 = ((b0 as u16) << 8) | (b1 as u16);
    assert(value == (b0 as int * 256 + b1 as int) as u16) by (bit_vector)
        requires
            value == ((b0 as u16) << 8) | (b1 as u16),
    ;
    let rest: &[u8] = &cp[2..cp.len()];
    *cp = rest;
    value
}

/// Reads a big-endian 32-bit value and advances the slice past it.
pub fn get_long(cp: &mut &[u8]) -> (value: u32)
    requires
        old(cp)@.len() >= 4,
    ensures
        value == be32_value(old(cp)@[0], old(cp)@[1], old(cp)@[2], old(cp)@[3]),
        final(cp)@ == old(cp)@.subrange(4, old(cp)@.len() as int),
{
    let b0: u8 = cp[0];
    let b1: u8 = cp[1];
    let b2: u8 = cp[2];
    let b3: u8 = cp[3];
    let value: u32 = ((b0 as u32) << 24) | ((b1 as u32) << 16) | ((b2 as u32) << 8) | (b3 as u32);
    assert(value == (b0 as int * 16777216 + b1 as int * 65536 + b2 as int * 256 + b3 as int) as u32)
        by (bit_vector)
        requires
            value == ((b0 as u32) << 24) | ((b1 as u32) << 16) | ((b2 as u32) << 8) | (b3 as u32),
    ;
    let rest: &[u8] = &cp[4..cp.len()];
    *cp = rest;
    value
}

/// Appends the four big-endian bytes of `l`.
pub fn put_long(l: u32, cp: &mut Vec<u8>)
    ensures
        final(cp)@ == old(cp)@ + be32_bytes(l),
{
    let b0: u8 = (l >> 24) as u8;
    let b1: u8 = (l >> 16) as u8;
    let b2: u8 = (l >> 8) as u8;
    let b3: u8 = (l & 0xff) as u8;
    assert(b0 == (l as int / 16777216) as u8 && b1 == ((l as int / 65536) % 256) as u8 && b2 == ((
    l as int / 256) % 256) as u8 && b3 == (l as int % 256) as u8) by (bit_vector)
        requires
            b0 == (l >> 24) as u8,
            b1 == (l >> 16) as u8,
            b2 == (l >> 8) as u8,
            b3 == (l & 0xff) as u8,
    ;
    cp.push(b0);
    cp.push(b1);
    cp.push(b2);
    cp.push(b3);
}

/// Appends the two big-endian bytes of `s`.
pub fn put_short(s: u16, cp: &mut Vec<u8>)
    ensures
        final(cp)@ == old(cp)@ + be16_bytes(s),
{
    let b0: u8 = (s >> 8) as u8;
    let b1: u8 = (s & 0xff) as u8;
    assert(b0 == (s as int / 256) as u8 && b1 == (s as int % 256) as u8) by (bit_vector)
        requires
            b0 == (s >> 8) as u8,
            b1 == (s & 0xff) as u8,
    ;
    cp.push(b0);
    cp.push(b1);
}

/// Reading back what `put_short` wrote gives the value written.
pub proof fn lemma_short_roundtrip(s: u16)
    ensures
        be16_value(be16_bytes(s)[0], be16_bytes(s)[1]) == s,
{
    let b = be16_bytes(s);
    assert(b[0] as int * 256 + b[1] as int == s) by (nonlinear_arith)
        requires
            b[0] == (s as int / 256) as u8,
            b[1] == (s as int % 256) as u8,
            0 <= s < 65536,
    ;
}

/// Reading back what `put_long` wrote gives the value written.
pub proof fn lemma_long_roundtrip(l: u32)
    ensures
        be32_value(be32_bytes(l)[0], be32_bytes(l)[1], be32_bytes(l)[2], be32_bytes(l)[3]) == l,
{
    let b = be32_bytes(l);
    assert(b[0] as int * 16777216 + b[1] as int * 65536 + b[2] as int * 256 + b[3] as int == l)
        by (nonlinear_arith)
        requires
            b[0] == (l as int / 16777216) as u8,
            b[1] == ((l as int / 65536) % 256) as u8,
            b[2] == ((l as int / 256) % 256) as u8,
            b[3] == (l as int % 256) as u8,
            0 <= l < 4294967296,
    ;
}

/// Writing with `put_short` and reading with `get_short` gives back the
/// value and consumes exactly the two bytes written.
pub proof fn law_short_roundtrip(s: u16, tail: Seq<u8>)
    ensures
        ({
            let buf = be16_bytes(s) + tail;
            &&& be16_value(buf[0], buf[1]) == s
            &&& buf.subrange(2, buf.len() as int) == tail
        }),
{
    lemma_short_roundtrip(s);
    let buf = be16_bytes(s) + tail;
    assert(buf.subrange(2, buf.len() as int) =~= tail);
}

/// Writing with `put_long` and reading with `get_long` gives back the
/// value and consumes exactly the four bytes written.
pub proof fn law_long_roundtrip(l: u32, tail: Seq<u8>)
    ensures
        ({
            let buf = be32_bytes(l) + tail;
            &&& be32_value(buf[0], buf[1], buf[2], buf[3]) == l
            &&& buf.subrange(4, buf.len() as int) == tail
        }),
{
    lemma_long_roundtrip(l);
    let buf = be32_bytes(l) + tail;
    assert(buf.subrange(4, buf.len() as int) =~= tail);
}

/// Appends the bytes of `s` to `v`.
pub fn extend_bytes(v: &mut Vec<u8>, s: &[u8])
    ensures
        final(v)@ == old(v)@ + s@,
{
    let ghost start = v@;
    let mut i: usize = 0;
    while i < s.len()
        invariant
            i <= s.len(),
            v@ == start + s@.take(i as int),
        decreases s.len() - i,
    {
        v.push(s[i]);
        i += 1;
        assert(s@.take(i as int) =~= s@.take(i - 1) + seq![s@[i - 1]]);
    }
    assert(s@.take(s.len() as int) =~= s@);
}

} // verus!
