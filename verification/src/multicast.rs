//! The `mdsevent_address` setting and the mapping of event names to multicast groups.
//!
//! A setting is `compat`, a dotted IPv4 address `a.b.c.d`, or a range `a.b.c.s-e`;
//! events are spread over the groups `a.b.c.s` to `a.b.c.e` by the byte sum of their names.

use crate::text::{
    all_whitespace, chars_of, find, find_char, lemma_find_absent, lemma_find_after, lemma_split_at_first,
    lemma_split_single, lemma_trim_ignores_surrounding_space, lemma_trim_unchanged, spec_is_whitespace,
    split, split_from, split_range, trim, trim_bounds, views,
};
use vstd::prelude::*;
use vstd::utf8::encode_utf8;

verus! {

/// Why a number in the setting is not an octet.
#[derive(Debug, Clone, Copy, PartialEq, Eq, Structural)]
pub enum NumberError {
    /// Not a decimal integer of at most 16 bits.
    NotAnInteger,
    /// An integer above 255.
    OutOfRange,
}

/// Which number of the setting an error is about.
#[derive(Debug, Clone, Copy, PartialEq, Eq, Structural)]
pub enum OctetField {
    Octet1,
    Octet2,
    Octet3,
    Octet4,
    RangeStart,
    RangeEnd,
}

/// Why an address setting is refused.
#[derive(Debug, Clone, Copy, PartialEq, Eq, Structural)]
pub enum AddressError {
    /// The setting ends before this number.
    Missing(OctetField),
    /// This number is not a decimal integer of at most 16 bits.
    NotAnInteger(OctetField),
    /// This number is above 255.
    OutOfRange(OctetField),
    /// More than four dot-separated parts.
    TooManyOctets,
    /// The range ends before it starts.
    RangeReversed,
}

/// A decimal digit.
pub open spec fn is_digit(c: char) -> bool {
    '0' <= c <= '9'
}

/// The value of a string of decimal digits.
pub open spec fn digits_value(s: Seq<char>) -> nat
    decreases s.len(),
{
    if s.len() == 0 {
        0
    } else {
        digits_value(s.drop_last()) * 10 + ((s.last() as int) - ('0' as int)) as nat
    }
}

/// The digits of an unsigned decimal number, an optional leading `+` removed.
pub open spec fn unsigned_digits(s: Seq<char>) -> Seq<char> {
    if s.len() > 0 && s[0] == '+' {
        s.drop_first()
    } else {
        s
    }
}

/// At least one character, all of them digits.
pub open spec fn all_digits(s: Seq<char>) -> bool {
    s.len() > 0 && forall|i: int| 0 <= i < s.len() ==> is_digit(#[trigger] s[i])
}

/// An octet as `u16` parsing followed by a range check reads it: an optional `+` and at
/// least one digit, of value at most 65535, is an integer; an integer above 255 is out of
/// range.
pub open spec fn spec_parse_octet(s: Seq<char>) -> Result<u8, NumberError> {
    let d = unsigned_digits(s);
    if !all_digits(d) || digits_value(d) > 65535 {
        Err(NumberError::NotAnInteger)
    } else if digits_value(d) > 255 {
        Err(NumberError::OutOfRange)
    } else {
        Ok(digits_value(d) as u8)
    }
}

/// The error about field `f` for a number error.
pub open spec fn field_error(e: NumberError, f: OctetField) -> AddressError {
    match e {
        NumberError::NotAnInteger => AddressError::NotAnInteger(f),
        NumberError::OutOfRange => AddressError::OutOfRange(f),
    }
}

/// Field `f` read as an octet.
pub open spec fn parsed_field(s: Seq<char>, f: OctetField) -> Result<u8, AddressError> {
    match spec_parse_octet(s) {
        Ok(v) => Ok(v),
        Err(e) => Err(field_error(e, f)),
    }
}

/// The last part of a setting: `s-e` is a range (its end not before its start),
/// anything else is a single fourth octet.
pub open spec fn parsed_last(s: Seq<char>) -> Result<(u8, u8), AddressError> {
    match find_char(s, '-') {
        Some(i) => match parsed_field(s.take(i), OctetField::RangeStart) {
            Err(e) => Err(e),
            Ok(a) => match parsed_field(s.skip(i + 1), OctetField::RangeEnd) {
                Err(e) => Err(e),
                Ok(b) => if b < a {
                    Err(AddressError::RangeReversed)
                } else {
                    Ok((a, b))
                },
            },
        },
        None => match parsed_field(s, OctetField::Octet4) {
            Err(e) => Err(e),
            Ok(v) => Ok((v, v)),
        },
    }
}

/// The lower case of an ASCII letter; any other character unchanged.
pub open spec fn ascii_lower(c: char) -> char {
    if 'A' <= c <= 'Z' {
        ((c as u32) + 32) as char
    } else {
        c
    }
}

/// The word that selects the compatibility groups, in lower case.
pub open spec fn compat_word() -> Seq<char> {
    seq!['c', 'o', 'm', 'p', 'a', 't']
}

/// `t` is the compatibility word, ASCII case ignored.
pub open spec fn is_compat(t: Seq<char>) -> bool {
    t.len() == 6 && forall|i: int| 0 <= i < 6 ==> ascii_lower(#[trigger] t[i]) == compat_word()[i]
}

/// The three leading octets and the range of last octets that a setting names, or why
/// it is refused. The setting is trimmed first; the checks come in the order: first
/// octet, second, third, presence of the fourth, no fifth part, then the last part.
pub open spec fn spec_parse_address(s: Seq<char>) -> Result<(u8, u8, u8, u8, u8), AddressError> {
    let t = trim(s);
    if is_compat(t) {
        Ok((225, 0, 0, 0, 255))
    } else {
        let parts = split(t, '.');
        match parsed_field(parts[0], OctetField::Octet1) {
            Err(e) => Err(e),
            Ok(p1) => if parts.len() < 2 {
                Err(AddressError::Missing(OctetField::Octet2))
            } else {
                match parsed_field(parts[1], OctetField::Octet2) {
                    Err(e) => Err(e),
                    Ok(p2) => if parts.len() < 3 {
                        Err(AddressError::Missing(OctetField::Octet3))
                    } else {
                        match parsed_field(parts[2], OctetField::Octet3) {
                            Err(e) => Err(e),
                            Ok(p3) => if parts.len() < 4 {
                                Err(AddressError::Missing(OctetField::Octet4))
                            } else if parts.len() > 4 {
                                Err(AddressError::TooManyOctets)
                            } else {
                                match parsed_last(parts[3]) {
                                    Err(e) => Err(e),
                                    Ok((a, b)) => Ok((p1, p2, p3, a, b)),
                                }
                            },
                        }
                    },
                }
            },
        }
    }
}

/// The sum of the bytes of `b`.
pub open spec fn byte_sum(b: Seq<u8>) -> nat
    decreases b.len(),
{
    if b.len() == 0 {
        0
    } else {
        byte_sum(b.drop_last()) + b.last() as nat
    }
}

/// The last octet that an event with byte sum `hash` maps to: the low byte of the sum,
/// scaled from 0..256 onto the range `start..=end`.
pub open spec fn mapped_index(start: u8, end: u8, hash: nat) -> u8 {
    (start + ((hash % 256) * ((end - start) + 1)) / 256) as u8
}

/// The IPv4 address with three leading octets and a last one.
pub open spec fn address(a: u8, b: u8, c: u8, d: u8) -> [u8; 4] {
    [a, b, c, d]
}

/// A multicast group prefix and the range of last octets the events spread over.
#[derive(Debug, Clone)]
pub struct MulticastConfig {
    first: [u8; 3],
    pub range_start: u8,
    pub range_end: u8,
}

/// Reads part `v[lo..hi]` as an octet.
fn parse_octet(v: &Vec<char>, lo: usize, hi: usize) -> (r: Result<u8, NumberError>)
    requires
        lo <= hi <= v@.len(),
    ensures
        r == spec_parse_octet(v@.subrange(lo as int, hi as int)),
{
    let ghost s = v@.subrange(lo as int, hi as int);
    let mut start = lo;
    if lo < hi && v[lo] == '+' {
        start = lo + 1;
    }
    let ghost d = v@.subrange(start as int, hi as int);
    assert(d =~= unsigned_digits(s));
    if start == hi {
        return Err(NumberError::NotAnInteger);
    }
    // The value so far, saturated at 65536.
    let mut acc: u32 = 0;
    let mut i = start;
    while i < hi
        invariant
            lo <= start <= i <= hi <= v@.len(),
            d == v@.subrange(start as int, hi as int),
            d == unsigned_digits(v@.subrange(lo as int, hi as int)),
            forall|j: int| 0 <= j < i - start ==> is_digit(#[trigger] d[j]),
            acc as nat == if digits_value(d.take(i - start)) > 65536 {
                65536
            } else {
                digits_value(d.take(i - start))
            },
        decreases hi - i,
    {
        let c = v[i];
        if !('0' <= c && c <= '9') {
            assert(d[i - start] == c);
            assert(!is_digit(d[i - start]));
            return Err(NumberError::NotAnInteger);
        }
        let digit = (c as u32) - ('0' as u32);
        let ghost k = i - start;
        assert(d.take(k + 1).drop_last() =~= d.take(k));
        assert(d.take(k + 1).last() == c);
        let next = acc * 10 + digit;
        acc = if next > 65536 {
            65536
        } else {
            next
        };
        i = i + 1;
    }
    assert(d.take(hi - start) =~= d);
    if acc > 65535 {
        Err(NumberError::NotAnInteger)
    } else if acc > 255 {
        Err(NumberError::OutOfRange)
    } else {
        Ok(acc as u8)
    }
}

/// Reads part `v[lo..hi]` as octet field `f`.
fn parse_field(v: &Vec<char>, lo: usize, hi: usize, f: OctetField) -> (r: Result<u8, AddressError>)
    requires
        lo <= hi <= v@.len(),
    ensures
        r == parsed_field(v@.subrange(lo as int, hi as int), f),
{
    match parse_octet(v, lo, hi) {
        Ok(x) => Ok(x),
        Err(NumberError::NotAnInteger) => Err(AddressError::NotAnInteger(f)),
        Err(NumberError::OutOfRange) => Err(AddressError::OutOfRange(f)),
    }
}

/// Reads the last part of a setting.
fn parse_last(v: &Vec<char>) -> (r: Result<(u8, u8), AddressError>)
    ensures
        r == parsed_last(v@),
{
    let n = v.len();
    assert(v@.subrange(0, n as int) =~= v@);
    match find(v, '-') {
        Some(i) => {
            assert(v@.subrange(0, i as int) =~= v@.take(i as int));
            assert(v@.subrange(i + 1, n as int) =~= v@.skip(i + 1));
            let a = match parse_field(v, 0, i, OctetField::RangeStart) {
                Ok(a) => a,
                Err(e) => return Err(e),
            };
            let b = match parse_field(v, i + 1, n, OctetField::RangeEnd) {
                Ok(b) => b,
                Err(e) => return Err(e),
            };
            if b < a {
                Err(AddressError::RangeReversed)
            } else {
                Ok((a, b))
            }
        },
        None => {
            match parse_field(v, 0, n, OctetField::Octet4) {
                Ok(x) => Ok((x, x)),
                Err(e) => Err(e),
            }
        },
    }
}

/// Whether `v[lo..hi]` is the compatibility word, ASCII case ignored.
fn is_compat_range(v: &Vec<char>, lo: usize, hi: usize) -> (b: bool)
    requires
        lo <= hi <= v@.len(),
    ensures
        b == is_compat(v@.subrange(lo as int, hi as int)),
{
    let ghost t = v@.subrange(lo as int, hi as int);
    if hi - lo != 6 {
        return false;
    }
    let lower = ['c', 'o', 'm', 'p', 'a', 't'];
    let upper = ['C', 'O', 'M', 'P', 'A', 'T'];
    assert(lower@ == compat_word());
    for i in 0..6
        invariant
            hi - lo == 6,
            lo <= hi <= v@.len(),
            t == v@.subrange(lo as int, hi as int),
            lower@ == compat_word(),
            upper@ == seq!['C', 'O', 'M', 'P', 'A', 'T'],
            forall|j: int| 0 <= j < i ==> ascii_lower(#[trigger] t[j]) == compat_word()[j],
    {
        let c = v[lo + i];
        assert(t[i as int] == c);
        assert(ascii_lower(c) == lower[i as int] <==> (c == lower[i as int] || c == upper[i as int]))
            by {
            assert(('C' as u32) + 32 == 'c' as u32);
            assert(('O' as u32) + 32 == 'o' as u32);
            assert(('M' as u32) + 32 == 'm' as u32);
            assert(('P' as u32) + 32 == 'p' as u32);
            assert(('A' as u32) + 32 == 'a' as u32);
            assert(('T' as u32) + 32 == 't' as u32);
        }
        if !(c == lower[i] || c == upper[i]) {
            return false;
        }
    }
    true
}

/// The parts of a split are never fewer than one.
proof fn lemma_split_nonempty(cur: Seq<char>, rest: Seq<char>, sep: char)
    ensures
        split_from(cur, rest, sep).len() >= 1,
    decreases rest.len(),
{
    if rest.len() > 0 {
        if rest[0] == sep {
            lemma_split_nonempty(Seq::empty(), rest.drop_first(), sep);
        } else {
            lemma_split_nonempty(cur.push(rest[0]), rest.drop_first(), sep);
        }
    }
}

impl View for MulticastConfig {
    /// The three leading octets, then the first and last of the last octets.
    type V = (u8, u8, u8, u8, u8);

    closed spec fn view(&self) -> (u8, u8, u8, u8, u8) {
        (self.first[0], self.first[1], self.first[2], self.range_start, self.range_end)
    }
}

impl MulticastConfig {
    /// Reads an `mdsevent_address` setting.
    pub fn parse(setting: &str) -> (r: Result<Self, AddressError>)
        ensures
            match spec_parse_address(setting@) {
                Ok(v) => r matches Ok(cfg) && cfg@ == v,
                Err(err) => r matches Err(e2) && e2 == err,
            },
            r matches Ok(cfg) ==> cfg@.3 <= cfg@.4,
    {
        let v = chars_of(setting);
        let (lo, hi) = trim_bounds(&v);
        if is_compat_range(&v, lo, hi) {
            return Ok(MulticastConfig { first: [225, 0, 0], range_start: 0, range_end: 255 });
        }
        let parts = split_range(&v, lo, hi, '.');
        let ghost t = v@.subrange(lo as int, hi as int);
        proof {
            lemma_split_nonempty(Seq::empty(), t, '.');
            assert(parts@.len() == views(parts@).len());
        }
        let n = parts.len();
        let p1 = parse_field(&parts[0], 0, parts[0].len(), OctetField::Octet1);
        proof {
            assert(parts[0]@.subrange(0, parts[0]@.len() as int) =~= split(t, '.')[0]);
        }
        let p1 = match p1 {
            Ok(x) => x,
            Err(e) => return Err(e),
        };
        if n < 2 {
            return Err(AddressError::Missing(OctetField::Octet2));
        }
        let p2 = parse_field(&parts[1], 0, parts[1].len(), OctetField::Octet2);
        proof {
            assert(parts[1]@.subrange(0, parts[1]@.len() as int) =~= split(t, '.')[1]);
        }
        let p2 = match p2 {
            Ok(x) => x,
            Err(e) => return Err(e),
        };
        if n < 3 {
            return Err(AddressError::Missing(OctetField::Octet3));
        }
        let p3 = parse_field(&parts[2], 0, parts[2].len(), OctetField::Octet3);
        proof {
            assert(parts[2]@.subrange(0, parts[2]@.len() as int) =~= split(t, '.')[2]);
        }
        let p3 = match p3 {
            Ok(x) => x,
            Err(e) => return Err(e),
        };
        if n < 4 {
            return Err(AddressError::Missing(OctetField::Octet4));
        }
        if n > 4 {
            return Err(AddressError::TooManyOctets);
        }
        proof {
            assert(parts[3]@ == split(t, '.')[3]);
        }
        let (range_start, range_end) = match parse_last(&parts[3]) {
            Ok(r) => r,
            Err(e) => return Err(e),
        };
        Ok(MulticastConfig { first: [p1, p2, p3], range_start, range_end })
    }

    /// The group address with last octet `index`.
    pub fn ip_for_index(&self, index: u8) -> (ip: [u8; 4])
        ensures
            ip == address(self@.0, self@.1, self@.2, index),
    {
        [self.first[0], self.first[1], self.first[2], index]
    }

    /// The group an event is sent to: the last octet is `range_start` plus the low byte
    /// of the byte sum of the name, scaled from 0..256 onto the width of the range,
    /// rounded down. (This is the exact value of the single-precision computation
    /// `start + (sum % 256) / 256 * width` cast to `u8`: every intermediate value has at
    /// most 17 significant bits.) The width `range_end - range_start + 1` is an `u8`
    /// computation, so the range may not span all 256 values, and the byte sum is an
    /// `u32` computation, so it may not exceed `u32::MAX`.
    pub fn event_to_multicast(&self, event_name: &str) -> (ip: [u8; 4])
        requires
            self@.3 <= self@.4,
            self@.4 - self@.3 < 255,
            byte_sum(encode_utf8(event_name@)) <= u32::MAX,
        ensures
            ip == address(
                self@.0,
                self@.1,
                self@.2,
                mapped_index(self@.3, self@.4, byte_sum(encode_utf8(event_name@))),
            ),
            ip[0] == self@.0 && ip[1] == self@.1 && ip[2] == self@.2,
            ip[3] as int == self@.3 + ((byte_sum(encode_utf8(event_name@)) % 256) * (self@.4
                - self@.3 + 1)) / 256,
            self@.3 <= ip[3] <= self@.4,
    {
        let bytes = event_name.as_bytes();
        let n = bytes.len();
        let mut hash: u32 = 0;
        for i in 0..n
            invariant
                n == bytes@.len(),
                bytes@ == encode_utf8(event_name@),
                byte_sum(bytes@) <= u32::MAX,
                hash as nat == byte_sum(bytes@.take(i as int)),
        {
            proof {
                assert(bytes@.take(i + 1).drop_last() =~= bytes@.take(i as int));
                lemma_byte_sum_prefix(bytes@, i + 1);
            }
            hash = hash + bytes[i] as u32;
        }
        proof {
            assert(bytes@.take(n as int) =~= bytes@);
        }
        let span: u8 = self.range_end - self.range_start + 1;
        let low: u32 = hash % 256;
        assert(low * span < 65536) by (nonlinear_arith)
            requires
                low < 256,
                span <= 255,
        ;
        let offset: u32 = (low * span as u32) / 256;
        proof {
            assert(offset < span) by (nonlinear_arith)
                requires
                    low < 256,
                    span > 0,
                    offset == (low * span) / 256;
        }
        let index: u8 = self.range_start + offset as u8;
        proof {
            lemma_mapped_index_formula(self.range_start, self.range_end, hash as nat);
        }
        self.ip_for_index(index)
    }

    /// The groups of the whole range, in order: the groups a receiver joins.
    pub fn groups(&self) -> (g: Vec<[u8; 4]>)
        requires
            self@.3 <= self@.4,
        ensures
            g@ == range_groups(self@.0, self@.1, self@.2, self@.3, self@.4),
    {
        let mut g: Vec<[u8; 4]> = Vec::new();
        let mut idx: u8 = self.range_start;
        let ghost want = Seq::new(
            (self@.4 - self@.3 + 1) as nat,
            |i: int| address(self@.0, self@.1, self@.2, (self@.3 + i) as u8),
        );
        loop
            invariant_except_break
                self@.3 <= idx <= self@.4,
                g@ == want.take(idx - self@.3),
            invariant
                want == Seq::new(
                    (self@.4 - self@.3 + 1) as nat,
                    |i: int| address(self@.0, self@.1, self@.2, (self@.3 + i) as u8),
                ),
            ensures
                g@ == want,
            decreases self@.4 - idx,
        {
            g.push(self.ip_for_index(idx));
            assert(g@ =~= want.take(idx - self@.3 + 1));
            if idx == self.range_end {
                assert(want.take(idx - self@.3 + 1) =~= want);
                break;
            }
            idx = idx + 1;
        }
        g
    }
}

/// The groups `a.b.c.start` to `a.b.c.end`, in order.
pub open spec fn range_groups(a: u8, b: u8, c: u8, start: u8, end: u8) -> Seq<[u8; 4]> {
    Seq::new((end - start + 1) as nat, |i: int| address(a, b, c, (start + i) as u8))
}

/// Every event maps to a group of the range, so a bridge that joins all the groups of its
/// setting receives what another bridge with the same setting sends: for any byte sum,
/// the mapped last octet lies between `start` and `end` and its group is one of
/// `range_groups`.
pub proof fn lemma_target_is_joined(a: u8, b: u8, c: u8, start: u8, end: u8, hash: nat)
    requires
        start <= end,
        end - start < 255,
    ensures
        start <= mapped_index(start, end, hash) <= end,
        range_groups(a, b, c, start, end).contains(address(a, b, c, mapped_index(start, end, hash))),
{
    let span = end - start + 1;
    let low = hash % 256;
    let offset = (low * span) / 256;
    assert(0 <= offset < span) by (nonlinear_arith)
        requires
            0 <= low < 256,
            span > 0,
            offset == (low * span) / 256;
    let g = range_groups(a, b, c, start, end);
    assert(g[offset] == address(a, b, c, mapped_index(start, end, hash)));
}

/// The mapping formula: for a range `start..=end` narrower than 256 values, the last
/// octet an event maps to is `start + floor((sum mod 256) * (end - start + 1) / 256)`,
/// where `sum` is the sum of the bytes of the event name. In particular it lies within the
/// range.
pub proof fn lemma_mapped_index_formula(start: u8, end: u8, hash: nat)
    requires
        start <= end,
        end - start < 255,
    ensures
        mapped_index(start, end, hash) as int == start + ((hash % 256) * (end - start + 1)) / 256,
        start <= mapped_index(start, end, hash) <= end,
{
    let w = end - start + 1;
    let low = hash % 256;
    let offset = (low * w) / 256;
    assert(0 <= offset < w) by (nonlinear_arith)
        requires
            0 <= low < 256,
            w > 0,
            offset == (low * w) / 256;
}

/// The whole low byte of the byte sum counts: in a range at least two values wide, two
/// names whose byte sums' low bytes differ by 128 (only in bit 7) map to different groups,
/// the one with the larger low byte at least `width / 2` further on.
pub proof fn lemma_bit7_separates(start: u8, end: u8, h1: nat, h2: nat)
    requires
        start <= end,
        end - start < 255,
        end - start >= 1,
        h2 % 256 == h1 % 256 + 128,
    ensures
        mapped_index(start, end, h2) as int >= mapped_index(start, end, h1) as int + (end - start
            + 1) / 2,
        mapped_index(start, end, h1) != mapped_index(start, end, h2),
{
    lemma_mapped_index_formula(start, end, h1);
    lemma_mapped_index_formula(start, end, h2);
    let w: int = end - start + 1;
    let a: int = (h1 % 256) as int;
    assert(((a + 128) * w) / 256 >= (a * w) / 256 + w / 2) by (nonlinear_arith)
        requires
            0 <= a,
            w >= 2,
    {
        assert((a + 128) * w == a * w + 128 * w);
        assert(128 * w >= 256 * (w / 2));
    }
}

/// The byte sum is additive: the sum of a concatenation is the sum of the sums.
pub proof fn lemma_byte_sum_concat(a: Seq<u8>, b: Seq<u8>)
    ensures
        byte_sum(a + b) == byte_sum(a) + byte_sum(b),
    decreases b.len(),
{
    if b.len() > 0 {
        lemma_byte_sum_concat(a, b.drop_last());
        assert((a + b).drop_last() =~= a + b.drop_last());
    } else {
        assert(a + b =~= a);
    }
}

/// The byte sum of nothing is zero, and of one byte is that byte.
pub proof fn lemma_byte_sum_unit(x: u8)
    ensures
        byte_sum(Seq::<u8>::empty()) == 0,
        byte_sum(seq![x]) == x as nat,
{
    assert(seq![x].drop_last() =~= Seq::<u8>::empty());
}

/// The decimal digit of a value below ten.
pub open spec fn digit_char(d: nat) -> char {
    ((d + 48) as u32) as char
}

/// The plain decimal text of a number: its digits, most significant first, no sign and no
/// leading zeros.
pub open spec fn decimal(v: nat) -> Seq<char>
    decreases v,
{
    if v < 10 {
        seq![digit_char(v)]
    } else {
        decimal(v / 10).push(digit_char(v % 10))
    }
}

/// The dotted-decimal text `a.b.c.d`.
pub open spec fn dotted(a: u8, b: u8, c: u8, d: Seq<char>) -> Seq<char> {
    decimal(a as nat) + seq!['.'] + decimal(b as nat) + seq!['.'] + decimal(c as nat) + seq!['.']
        + d
}

/// The decimal text of a number is all digits and reads back as the number.
proof fn lemma_decimal(v: nat)
    ensures
        all_digits(decimal(v)),
        digits_value(decimal(v)) == v,
        decimal(v).len() > 0,
    decreases v,
{
    assert('0' as int == 48);
    if v < 10 {
        assert(decimal(v).drop_last() =~= Seq::<char>::empty());
        assert(digits_value(Seq::<char>::empty()) == 0);
        assert(decimal(v).last() == digit_char(v));
        assert(digit_char(v) as int == v + 48);
    } else {
        lemma_decimal(v / 10);
        let t = decimal(v / 10);
        assert(decimal(v).drop_last() =~= t);
        assert(digit_char(v % 10) as int == v % 10 + 48);
        assert(decimal(v).last() == digit_char(v % 10));
        assert((v / 10) * 10 + v % 10 == v);
        assert(digits_value(decimal(v)) == digits_value(t) * 10 + ((digit_char(v % 10) as int) - (
        '0' as int)) as nat);
        assert forall|i: int| 0 <= i < decimal(v).len() implies is_digit(#[trigger] decimal(v)[i]) by {
            if i < t.len() {
                assert(decimal(v)[i] == t[i]);
            }
        }
    }
}

/// The decimal text of an octet parses as that octet.
proof fn lemma_parse_decimal(v: u8)
    ensures
        spec_parse_octet(decimal(v as nat)) == Ok::<u8, NumberError>(v),
        forall|i: int|
            0 <= i < decimal(v as nat).len() ==> is_digit(#[trigger] decimal(v as nat)[i]),
{
    lemma_decimal(v as nat);
    let t = decimal(v as nat);
    assert(is_digit(t[0]));
    assert(unsigned_digits(t) == t);
}

/// A string of digits holds no dot, dash or white space.
proof fn lemma_digits_plain(t: Seq<char>)
    requires
        forall|i: int| 0 <= i < t.len() ==> is_digit(#[trigger] t[i]),
    ensures
        forall|i: int| 0 <= i < t.len() ==> #[trigger] t[i] != '.' && t[i] != '-'
            && !spec_is_whitespace(t[i]),
{
}

/// The dotted text starts and ends with a digit and is not the compatibility word.
proof fn lemma_dotted_plain(a: u8, b: u8, c: u8, d: Seq<char>)
    requires
        d.len() > 0,
        is_digit(d.last()),
    ensures
        trim(dotted(a, b, c, d)) == dotted(a, b, c, d),
        !is_compat(dotted(a, b, c, d)),
{
    lemma_decimal(a as nat);
    let s = dotted(a, b, c, d);
    assert(s[0] == decimal(a as nat)[0]);
    assert(s.last() == d.last());
    lemma_trim_unchanged(s);
    assert(ascii_lower(s[0]) == s[0]);
    if is_compat(s) {
        assert(ascii_lower(s[0]) == compat_word()[0]);
    }
}

/// The parts of a dotted text are its four pieces.
proof fn lemma_split_dotted(a: u8, b: u8, c: u8, d: Seq<char>)
    requires
        forall|i: int| 0 <= i < d.len() ==> #[trigger] d[i] != '.',
    ensures
        split(dotted(a, b, c, d), '.') == seq![decimal(a as nat), decimal(b as nat), decimal(c as nat), d],
{
    lemma_parse_decimal(a);
    lemma_parse_decimal(b);
    lemma_parse_decimal(c);
    lemma_digits_plain(decimal(a as nat));
    lemma_digits_plain(decimal(b as nat));
    lemma_digits_plain(decimal(c as nat));
    let (ta, tb, tc) = (decimal(a as nat), decimal(b as nat), decimal(c as nat));
    let r3 = tc + seq!['.'] + d;
    let r2 = tb + seq!['.'] + r3;
    let s = ta + seq!['.'] + r2;
    assert(dotted(a, b, c, d) =~= s);
    lemma_split_at_first(ta, r2, '.');
    lemma_split_at_first(tb, r3, '.');
    lemma_split_at_first(tc, d, '.');
    lemma_split_single(d, '.');
    assert(split(s, '.') =~= seq![ta, tb, tc, d]);
}

/// Reading a dotted-decimal address: the setting `a.b.c.d`, written in plain decimal and
/// with any white space around it, names the prefix `a.b.c` and the single last octet `d`.
pub proof fn lemma_parse_dotted(a: u8, b: u8, c: u8, d: u8, w1: Seq<char>, w2: Seq<char>)
    requires
        all_whitespace(w1),
        all_whitespace(w2),
    ensures
        spec_parse_address(w1 + dotted(a, b, c, decimal(d as nat)) + w2) == Ok::<
            (u8, u8, u8, u8, u8),
            AddressError,
        >((a, b, c, d, d)),
{
    let td = decimal(d as nat);
    lemma_parse_decimal(a);
    lemma_parse_decimal(b);
    lemma_parse_decimal(c);
    lemma_parse_decimal(d);
    lemma_digits_plain(td);
    lemma_trim_ignores_surrounding_space(w1, dotted(a, b, c, td), w2);
    lemma_dotted_plain(a, b, c, td);
    lemma_split_dotted(a, b, c, td);
    lemma_find_absent(td, '-');
}

/// Reading a dotted-decimal range: the setting `a.b.c.s-e`, in plain decimal and with any
/// white space around it, names the prefix `a.b.c` and the range `s..=e`, and is refused
/// as reversed exactly when `e < s`.
pub proof fn lemma_parse_dotted_range(
    a: u8,
    b: u8,
    c: u8,
    start: u8,
    end: u8,
    w1: Seq<char>,
    w2: Seq<char>,
)
    requires
        all_whitespace(w1),
        all_whitespace(w2),
    ensures
        spec_parse_address(
            w1 + dotted(a, b, c, decimal(start as nat) + seq!['-'] + decimal(end as nat)) + w2,
        ) == if end < start {
            Err::<(u8, u8, u8, u8, u8), AddressError>(AddressError::RangeReversed)
        } else {
            Ok((a, b, c, start, end))
        },
{
    let ts = decimal(start as nat);
    let te = decimal(end as nat);
    let last = ts + seq!['-'] + te;
    lemma_parse_decimal(a);
    lemma_parse_decimal(b);
    lemma_parse_decimal(c);
    lemma_parse_decimal(start);
    lemma_parse_decimal(end);
    lemma_digits_plain(ts);
    lemma_digits_plain(te);
    assert forall|i: int| 0 <= i < last.len() implies #[trigger] last[i] != '.' by {
        if i < ts.len() {
            assert(last[i] == ts[i]);
        } else if i > ts.len() {
            assert(last[i] == te[i - ts.len() - 1]);
        }
    }
    assert(last.last() == te.last());
    lemma_trim_ignores_surrounding_space(w1, dotted(a, b, c, last), w2);
    lemma_dotted_plain(a, b, c, last);
    lemma_split_dotted(a, b, c, last);
    lemma_find_after(ts, '-', te);
    assert(last.take(ts.len() as int) =~= ts);
    assert(last.skip(ts.len() as int + 1) =~= te);
}

/// The compatibility setting: the word `compat` in any mix of ASCII upper and lower case,
/// with any white space around it, names the groups `225.0.0.0` to `225.0.0.255`.
pub proof fn lemma_parse_compat(t: Seq<char>, w1: Seq<char>, w2: Seq<char>)
    requires
        all_whitespace(w1),
        all_whitespace(w2),
        t.len() == 6,
        t[0] == 'c' || t[0] == 'C',
        t[1] == 'o' || t[1] == 'O',
        t[2] == 'm' || t[2] == 'M',
        t[3] == 'p' || t[3] == 'P',
        t[4] == 'a' || t[4] == 'A',
        t[5] == 't' || t[5] == 'T',
    ensures
        spec_parse_address(w1 + t + w2) == Ok::<(u8, u8, u8, u8, u8), AddressError>(
            (225, 0, 0, 0, 255),
        ),
{
    lemma_trim_ignores_surrounding_space(w1, t, w2);
    lemma_trim_unchanged(t);
    assert(('C' as u32) + 32 == 'c' as u32);
    assert(('O' as u32) + 32 == 'o' as u32);
    assert(('M' as u32) + 32 == 'm' as u32);
    assert(('P' as u32) + 32 == 'p' as u32);
    assert(('A' as u32) + 32 == 'a' as u32);
    assert(('T' as u32) + 32 == 't' as u32);
    assert(is_compat(t));
}

/// The byte sum of a prefix is at most that of the whole.
proof fn lemma_byte_sum_prefix(b: Seq<u8>, k: int)
    requires
        0 <= k <= b.len(),
    ensures
        byte_sum(b.take(k)) <= byte_sum(b),
    decreases b.len() - k,
{
    if k < b.len() {
        lemma_byte_sum_prefix(b, k + 1);
        assert(b.take(k + 1).drop_last() =~= b.take(k));
    } else {
        assert(b.take(k) =~= b);
    }
}

} // verus!
