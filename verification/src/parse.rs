//! The record format: one record per line, `<key><delimiter><value>`, where
//! the delimiter is a semicolon and the value is a signed decimal literal with
//! an optional single fractional digit. Values are parsed exactly into
//! fixed-point tenths. A line that does not match the format is a
//! malformed-record error, fatal to the whole computation.

use vstd::prelude::*;
use vstd::slice::*;

use crate::stats::VAL_BOUND;

verus! {

/// Delimiter between key and value.
pub const SEMI: u8 = 59;

/// Line terminator.
pub const NL: u8 = 10;

/// Decimal point.
pub const DOT: u8 = 46;

/// Minus sign.
pub const MINUS: u8 = 45;

/// Plus sign.
pub const PLUS: u8 = 43;

pub open spec fn is_digit(b: u8) -> bool {
    48 <= b <= 57
}

pub open spec fn all_digits(s: Seq<u8>) -> bool {
    forall|i: int| 0 <= i < s.len() ==> is_digit(#[trigger] s[i])
}

/// Value of a sequence of decimal digit bytes, most significant first.
pub open spec fn dec_val(s: Seq<u8>) -> int
    decreases s.len(),
{
    if s.len() == 0 {
        0
    } else {
        dec_val(s.drop_last()) * 10 + (s.last() - 48)
    }
}

/// Index of the first occurrence of `b` in `s`, or `s.len()` if absent.
pub open spec fn find_byte(s: Seq<u8>, b: u8) -> int
    decreases s.len(),
{
    if s.len() == 0 {
        0
    } else if s[0] == b {
        0
    } else {
        1 + find_byte(s.subrange(1, s.len() as int), b)
    }
}

pub proof fn lemma_find_byte(s: Seq<u8>, b: u8)
    ensures
        0 <= find_byte(s, b) <= s.len(),
        find_byte(s, b) < s.len() ==> s[find_byte(s, b)] == b,
        forall|j: int| 0 <= j < find_byte(s, b) ==> s[j] != b,
    decreases s.len(),
{
    if s.len() == 0 {
    } else if s[0] == b {
    } else {
        let t = s.subrange(1, s.len() as int);
        lemma_find_byte(t, b);
        let f = find_byte(s, b);
        assert forall|j: int| 0 <= j < f implies s[j] != b by {
            if j >= 1 {
                assert(t[j - 1] == s[j]);
            }
        }
        if f < s.len() {
            assert(t[f - 1] == s[f]);
        }
    }
}

/// `find_byte` is the unique index with nothing matching before it.
pub proof fn lemma_find_byte_eq(s: Seq<u8>, b: u8, i: int)
    requires
        0 <= i <= s.len(),
        i < s.len() ==> s[i] == b,
        forall|j: int| 0 <= j < i ==> s[j] != b,
        i == s.len() ==> forall|j: int| 0 <= j < s.len() ==> s[j] != b,
    ensures
        find_byte(s, b) == i,
{
    lemma_find_byte(s, b);
    let f = find_byte(s, b);
    if f < i {
        assert(s[f] == b);
    } else if i < f {
        assert(s[i] != b);
    }
}

pub open spec fn pow10(n: nat) -> int
    decreases n,
{
    if n == 0 {
        1
    } else {
        10 * pow10((n - 1) as nat)
    }
}

pub proof fn lemma_pow10_pos(n: nat)
    ensures
        pow10(n) >= 1,
    decreases n,
{
    if n > 0 {
        lemma_pow10_pos((n - 1) as nat);
    }
}

pub proof fn lemma_pow10_mono(a: nat, b: nat)
    requires
        a <= b,
    ensures
        pow10(a) <= pow10(b),
    decreases b,
{
    if a < b {
        lemma_pow10_mono(a, (b - 1) as nat);
        lemma_pow10_pos((b - 1) as nat);
    }
}

pub proof fn lemma_pow10_17()
    ensures
        pow10(16) == 10_000_000_000_000_000,
        pow10(17) == 100_000_000_000_000_000,
{
    reveal_with_fuel(pow10, 19);
}

/// A magnitude is 1 to 17 integer digits, optionally followed by a decimal
/// point and exactly one fractional digit. Its value is in tenths.
pub open spec fn mag_ok(s: Seq<u8>) -> bool {
    let p = find_byte(s, DOT);
    if p == s.len() {
        1 <= s.len() <= 17 && all_digits(s)
    } else {
        1 <= p <= 17 && s.len() == p + 2 && all_digits(s.subrange(0, p)) && is_digit(s[p + 1])
    }
}

pub open spec fn mag_val(s: Seq<u8>) -> int {
    let p = find_byte(s, DOT);
    if p == s.len() {
        dec_val(s) * 10
    } else {
        dec_val(s.subrange(0, p)) * 10 + (s[p + 1] - 48)
    }
}

/// A value is a magnitude with an optional leading sign.
pub open spec fn num_ok(s: Seq<u8>) -> bool {
    if s.len() > 0 && (s[0] == PLUS || s[0] == MINUS) {
        mag_ok(s.subrange(1, s.len() as int))
    } else {
        mag_ok(s)
    }
}

pub open spec fn num_val(s: Seq<u8>) -> int {
    if s.len() > 0 && s[0] == MINUS {
        -mag_val(s.subrange(1, s.len() as int))
    } else if s.len() > 0 && s[0] == PLUS {
        mag_val(s.subrange(1, s.len() as int))
    } else {
        mag_val(s)
    }
}

/// A line is well formed when it has a delimiter and everything after the
/// first delimiter is a value. The key is everything before that delimiter.
pub open spec fn line_ok(l: Seq<u8>) -> bool {
    find_byte(l, SEMI) < l.len() && num_ok(l.subrange(find_byte(l, SEMI) + 1, l.len() as int))
}

pub open spec fn line_key(l: Seq<u8>) -> Seq<u8> {
    l.subrange(0, find_byte(l, SEMI))
}

pub open spec fn line_val(l: Seq<u8>) -> int {
    num_val(l.subrange(find_byte(l, SEMI) + 1, l.len() as int))
}

/// A record that fails to match the line format. Fatal: the computation has
/// no per-record skip policy.
#[derive(Clone, Copy, Debug, PartialEq, Eq)]
pub struct MalformedRecordError;

/// A parsed record: key and value in tenths. Transient, consumed immediately.
pub struct Measurement {
    pub name: Vec<u8>,
    pub temp: i64,
}

/// Index of the first occurrence of `b`, or the length if absent.
pub fn find_first(s: &[u8], b: u8) -> (i: usize)
    ensures
        i as int == find_byte(s@, b),
        0 <= i <= s@.len(),
{
    let n = s.len();
    let mut i: usize = 0;
    while i < n
        invariant
            n == s@.len(),
            0 <= i <= n,
            forall|j: int| 0 <= j < i ==> s@[j] != b,
        decreases n - i,
    {
        if *slice_index_get(s, i) == b {
            proof {
                lemma_find_byte_eq(s@, b, i as int);
            }
            return i;
        }
        i = i + 1;
    }
    proof {
        lemma_find_byte_eq(s@, b, n as int);
    }
    n
}

/// Parses 1 to 17 decimal digits into their value.
fn parse_digits(s: &[u8]) -> (r: Option<i64>)
    ensures
        r.is_some() <==> (1 <= s@.len() <= 17 && all_digits(s@)),
        r matches Some(v) ==> v as int == dec_val(s@) && 0 <= v < 100_000_000_000_000_000,
{
    let n = s.len();
    if n == 0 || n > 17 {
        return None;
    }
    let mut acc: i64 = 0;
    let mut i: usize = 0;
    while i < n
        invariant
            n == s@.len(),
            1 <= n <= 17,
            0 <= i <= n,
            forall|j: int| 0 <= j < i ==> is_digit(#[trigger] s@[j]),
            acc as int == dec_val(s@.subrange(0, i as int)),
            0 <= acc,
            (acc as int) < pow10(i as nat),
        decreases n - i,
    {
        let c = *slice_index_get(s, i);
        if c < 48 || c > 57 {
            return None;
        }
        proof {
            lemma_pow10_mono(i as nat, 16);
            lemma_pow10_17();
            assert(s@.subrange(0, (i + 1) as int).drop_last() == s@.subrange(0, i as int));
            assert(s@.subrange(0, (i + 1) as int).last() == s@[i as int]);
            assert(pow10((i + 1) as nat) == 10 * pow10(i as nat));
        }
        acc = acc * 10 + ((c - 48) as i64);
        i = i + 1;
    }
    proof {
        assert(s@.subrange(0, n as int) == s@);
        lemma_pow10_mono(n as nat, 17);
        lemma_pow10_17();
    }
    Some(acc)
}

/// Parses an unsigned magnitude into tenths.
fn parse_mag(s: &[u8]) -> (r: Option<i64>)
    ensures
        r.is_some() <==> mag_ok(s@),
        r matches Some(v) ==> v as int == mag_val(s@) && 0 <= v < VAL_BOUND,
{
    let n = s.len();
    let p = find_first(s, DOT);
    if p == n {
        match parse_digits(s) {
            None => None,
            Some(d) => Some(d * 10),
        }
    } else {
        if n - p != 2 {
            return None;
        }
        let intpart = slice_subrange(s, 0, p);
        match parse_digits(intpart) {
            None => None,
            Some(d) => {
                let c = *slice_index_get(s, p + 1);
                if c < 48 || c > 57 {
                    return None;
                }
                Some(d * 10 + ((c - 48) as i64))
            },
        }
    }
}

/// Parses a signed value into tenths.
pub fn parse_num(s: &[u8]) -> (r: Option<i64>)
    ensures
        r.is_some() <==> num_ok(s@),
        r matches Some(v) ==> v as int == num_val(s@) && -VAL_BOUND < v < VAL_BOUND,
{
    let n = s.len();
    if n > 0 {
        let c0 = *slice_index_get(s, 0);
        if c0 == PLUS || c0 == MINUS {
            let mag = slice_subrange(s, 1, n);
            return match parse_mag(mag) {
                None => None,
                Some(v) => Some(if c0 == MINUS { -v } else { v }),
            };
        }
    }
    match parse_mag(s) {
        None => None,
        Some(v) => Some(v),
    }
}

/// Splits a line at the first delimiter and parses the value text. Returns
/// the parsed record exactly when the line matches the record format.
pub fn parse_line(l: &[u8]) -> (r: Result<Measurement, MalformedRecordError>)
    ensures
        r.is_ok() <==> line_ok(l@),
        r matches Ok(m) ==> m.name@ == line_key(l@) && m.temp as int == line_val(l@)
            && -VAL_BOUND < m.temp < VAL_BOUND,
{
    let n = l.len();
    let p = find_first(l, SEMI);
    if p == n {
        return Err(MalformedRecordError);
    }
    let valtext = slice_subrange(l, p + 1, n);
    match parse_num(valtext) {
        None => Err(MalformedRecordError),
        Some(v) => {
            let name = slice_to_vec(slice_subrange(l, 0, p));
            Ok(Measurement { name, temp: v })
        },
    }
}

} // verus!
