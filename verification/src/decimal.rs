//! Decimal literals of STEP text and their values in millionths.
//!
//! A literal reads: an optional sign, digits, an optional point, more digits,
//! and an optional exponent (`e` or `E`, an optional sign, digits). The value
//! of a coordinate in millionths is cut off after the sixth decimal place. A
//! direction is read at its own scale: its twelve leading places decide, so
//! that it has length one whether it is written short or long.

use vstd::prelude::*;
use crate::fixed::LENGTH_MAX;
use crate::fixed::SCALE;
use crate::fixed::pow10;
use crate::fixed::lemma_pow10_positive;
use crate::fixed::lemma_pow10_adds;
use crate::fixed::lemma_pow10_grows;
use crate::geometry::lemma_normalize_in_range;
use crate::geometry::normalize;
use crate::geometry::normalize_spec;
use crate::geometry::within;
use crate::text::ByteClass;
use crate::text::CH_CLOSE;
use crate::text::CH_COMMA;
use crate::text::CH_DOT;
use crate::text::CH_LOWER_E;
use crate::text::CH_MINUS;
use crate::text::CH_OPEN;
use crate::text::CH_PLUS;
use crate::text::CH_UPPER_E;
use crate::text::CH_ZERO;
use crate::text::all_digits;
use crate::text::digits_value;
use crate::text::lemma_run_end;
use crate::text::parse_digits;
use crate::text::run_end;
use crate::text::skip_run;

verus! {

/// Exponents beyond this magnitude count as this magnitude.
pub const EXPONENT_CAP: u64 = 0xffff_ffff_ffff_ffff;

/// Where the parts of a literal stand in the text.
#[derive(Clone, Copy, Debug, PartialEq, Eq, Structural)]
pub struct NumberSpan {
    pub negative: bool,
    pub int_from: usize,
    pub int_to: usize,
    pub frac_from: usize,
    pub frac_to: usize,
    pub exp_negative: bool,
    /// The digits of the exponent; empty where the literal has none.
    pub exp_from: usize,
    pub exp_to: usize,
    pub end: usize,
}

/// The byte is a plus or a minus sign.
pub open spec fn is_sign(b: u8) -> bool {
    b == CH_PLUS || b == CH_MINUS
}

/// The literal that begins at `i`, if one does; a sign belongs to it only
/// where `signed` says so.
pub open spec fn number_at(s: Seq<u8>, i: int, signed: bool) -> Option<NumberSpan> {
    let has_sign = signed && 0 <= i < s.len() && is_sign(s[i]);
    let int_from = if has_sign {
        i + 1
    } else {
        i
    };
    let int_to = run_end(s, int_from, ByteClass::Digit);
    let has_dot = int_to < s.len() && s[int_to] == CH_DOT;
    let frac_from = if has_dot {
        int_to + 1
    } else {
        int_to
    };
    let frac_to = run_end(s, frac_from, ByteClass::Digit);
    let has_e = frac_to < s.len() && (s[frac_to] == CH_LOWER_E || s[frac_to] == CH_UPPER_E);
    let exp_signed = has_e && frac_to + 1 < s.len() && is_sign(s[frac_to + 1]);
    let exp_from = if exp_signed {
        frac_to + 2
    } else {
        frac_to + 1
    };
    let exp_to = run_end(s, exp_from, ByteClass::Digit);
    let has_exp = has_e && exp_to > exp_from;
    if 0 <= i < s.len() && int_to > int_from {
        Some(
            NumberSpan {
                negative: has_sign && s[i] == CH_MINUS,
                int_from: int_from as usize,
                int_to: int_to as usize,
                frac_from: frac_from as usize,
                frac_to: frac_to as usize,
                exp_negative: has_exp && exp_signed && s[frac_to + 1] == CH_MINUS,
                exp_from: if has_exp {
                    exp_from as usize
                } else {
                    frac_to as usize
                },
                exp_to: if has_exp {
                    exp_to as usize
                } else {
                    frac_to as usize
                },
                end: if has_exp {
                    exp_to as usize
                } else {
                    frac_to as usize
                },
            },
        )
    } else {
        None
    }
}

/// The spans of a literal lie in the text in their order and hold digits.
pub open spec fn span_fits(s: Seq<u8>, n: NumberSpan) -> bool {
    &&& n.int_from < n.int_to <= n.frac_from <= n.frac_to <= n.exp_from <= n.exp_to <= s.len()
    &&& n.end == n.exp_to
    &&& all_digits(s.subrange(n.int_from as int, n.int_to as int))
    &&& all_digits(s.subrange(n.frac_from as int, n.frac_to as int))
    &&& all_digits(s.subrange(n.exp_from as int, n.exp_to as int))
}

proof fn lemma_digit_run(s: Seq<u8>, from: int)
    requires
        0 <= from <= s.len(),
    ensures
        from <= run_end(s, from, ByteClass::Digit) <= s.len(),
        all_digits(s.subrange(from, run_end(s, from, ByteClass::Digit))),
{
    lemma_run_end(s, from, ByteClass::Digit);
    let to = run_end(s, from, ByteClass::Digit);
    assert forall|k: int| 0 <= k < to - from implies ByteClass::Digit.has(
        #[trigger] s.subrange(from, to)[k],
    ) by {
        assert(s.subrange(from, to)[k] == s[from + k]);
    }
}

/// The literal that begins at `i`, if one does.
pub fn scan_number(s: &[u8], i: usize, signed: bool) -> (r: Option<NumberSpan>)
    requires
        i <= s@.len(),
    ensures
        r == number_at(s@, i as int, signed),
        r matches Some(n) ==> span_fits(s@, n) && i <= n.int_from && n.end > i,
{
    if i >= s.len() {
        return None;
    }
    let has_sign = signed && (s[i] == CH_PLUS || s[i] == CH_MINUS);
    let int_from: usize = if has_sign {
        i + 1
    } else {
        i
    };
    let int_to = skip_run(s, int_from, ByteClass::Digit);
    if int_to == int_from {
        return None;
    }
    let has_dot = int_to < s.len() && s[int_to] == CH_DOT;
    let frac_from: usize = if has_dot {
        int_to + 1
    } else {
        int_to
    };
    let frac_to = skip_run(s, frac_from, ByteClass::Digit);
    let has_e = frac_to < s.len() && (s[frac_to] == CH_LOWER_E || s[frac_to] == CH_UPPER_E);
    proof {
        lemma_digit_run(s@, int_from as int);
        lemma_digit_run(s@, frac_from as int);
        assert(s@.subrange(frac_to as int, frac_to as int).len() == 0);
    }
    if !has_e {
        return Some(
            NumberSpan {
                negative: has_sign && s[i] == CH_MINUS,
                int_from,
                int_to,
                frac_from,
                frac_to,
                exp_negative: false,
                exp_from: frac_to,
                exp_to: frac_to,
                end: frac_to,
            },
        );
    }
    let exp_signed = frac_to + 1 < s.len() && (s[frac_to + 1] == CH_PLUS || s[frac_to + 1]
        == CH_MINUS);
    let exp_from: usize = if exp_signed {
        frac_to + 2
    } else {
        frac_to + 1
    };
    let exp_to = skip_run(s, exp_from, ByteClass::Digit);
    proof {
        lemma_digit_run(s@, exp_from as int);
    }
    if exp_to > exp_from {
        Some(
            NumberSpan {
                negative: has_sign && s[i] == CH_MINUS,
                int_from,
                int_to,
                frac_from,
                frac_to,
                exp_negative: exp_signed && s[frac_to + 1] == CH_MINUS,
                exp_from,
                exp_to,
                end: exp_to,
            },
        )
    } else {
        Some(
            NumberSpan {
                negative: has_sign && s[i] == CH_MINUS,
                int_from,
                int_to,
                frac_from,
                frac_to,
                exp_negative: false,
                exp_from: frac_to,
                exp_to: frac_to,
                end: frac_to,
            },
        )
    }
}

/// Digit `j` of the digits followed by zeros without end.
pub open spec fn stream_digit(digits: Seq<u8>, j: int) -> nat {
    if 0 <= j < digits.len() {
        (digits[j] - CH_ZERO) as nat
    } else {
        0
    }
}

/// The number that the first `count` digits of the stream write.
pub open spec fn shifted_value(digits: Seq<u8>, count: int) -> nat
    decreases count,
{
    if count <= 0 {
        0
    } else {
        shifted_value(digits, count - 1) * 10 + stream_digit(digits, count - 1)
    }
}

/// The digits of a literal before and behind the point, as one run.
pub open spec fn mantissa(s: Seq<u8>, n: NumberSpan) -> Seq<u8> {
    s.subrange(n.int_from as int, n.int_to as int) + s.subrange(
        n.frac_from as int,
        n.frac_to as int,
    )
}

/// The exponent of a literal, held within `EXPONENT_CAP`.
pub open spec fn exponent(s: Seq<u8>, n: NumberSpan) -> int {
    let written = digits_value(s.subrange(n.exp_from as int, n.exp_to as int));
    let held = if written > EXPONENT_CAP {
        EXPONENT_CAP as int
    } else {
        written as int
    };
    if n.exp_negative {
        -held
    } else {
        held
    }
}

/// Magnitude of a literal in millionths, cut off: the digits of the mantissa
/// up to the sixth place behind the point, which the exponent moves.
pub open spec fn magnitude(s: Seq<u8>, n: NumberSpan) -> nat {
    shifted_value(mantissa(s, n), (n.int_to - n.int_from) + exponent(s, n) + 6)
}

/// Value of a literal in millionths, where its magnitude is at most
/// `LENGTH_MAX`.
pub open spec fn fixed_value(s: Seq<u8>, n: NumberSpan) -> Option<i64> {
    if magnitude(s, n) <= LENGTH_MAX {
        Some(
            if n.negative {
                (-(magnitude(s, n) as int)) as i64
            } else {
                magnitude(s, n) as i64
            },
        )
    } else {
        None
    }
}

/// More digits of the stream write no less.
pub proof fn lemma_shifted_value_grows(digits: Seq<u8>, a: int, b: int)
    requires
        a <= b,
    ensures
        shifted_value(digits, a) <= shifted_value(digits, b),
    decreases b - a,
{
    if a < b {
        lemma_shifted_value_grows(digits, a, b - 1);
    }
}

/// Zeros behind the digits of zero write zero.
pub proof fn lemma_shifted_value_stays_zero(digits: Seq<u8>, a: int, b: int)
    requires
        digits.len() <= a <= b,
        shifted_value(digits, a) == 0,
    ensures
        shifted_value(digits, b) == 0,
    decreases b - a,
{
    if a < b {
        lemma_shifted_value_stays_zero(digits, a, b - 1);
    }
}

/// The exponent of a literal, held within `EXPONENT_CAP`.
pub fn exponent_of(s: &[u8], n: &NumberSpan) -> (e: i128)
    requires
        span_fits(s@, *n),
    ensures
        e == exponent(s@, *n),
        -0xffff_ffff_ffff_ffff <= e <= 0xffff_ffff_ffff_ffff,
{
    let held: u64 = match parse_digits(s, n.exp_from, n.exp_to, EXPONENT_CAP) {
        Some(v) => v,
        None => EXPONENT_CAP,
    };
    if n.exp_negative {
        -(held as i128)
    } else {
        held as i128
    }
}

/// Digit `j` of the mantissa of a literal.
fn mantissa_digit(s: &[u8], n: &NumberSpan, j: usize) -> (d: u8)
    requires
        span_fits(s@, *n),
        j < (n.int_to - n.int_from) + (n.frac_to - n.frac_from),
    ensures
        d == mantissa(s@, *n)[j as int],
        ByteClass::Digit.has(d),
{
    let int_len: usize = n.int_to - n.int_from;
    if j < int_len {
        proof {
            let whole = s@.subrange(n.int_from as int, n.int_to as int);
            assert(mantissa(s@, *n)[j as int] == whole[j as int]);
            assert(whole[j as int] == s@[n.int_from + j]);
            assert(ByteClass::Digit.has(whole[j as int]));
        }
        s[n.int_from + j]
    } else {
        proof {
            let part = s@.subrange(n.frac_from as int, n.frac_to as int);
            assert(mantissa(s@, *n)[j as int] == part[j - int_len]);
            assert(part[j - int_len] == s@[n.frac_from + (j - int_len)]);
            assert(ByteClass::Digit.has(part[j - int_len]));
        }
        s[n.frac_from + (j - int_len)]
    }
}

/// The number that the first `count` digits of the mantissa, with zeros
/// behind them, write, where it is at most `limit`.
pub fn cut_value(s: &[u8], n: &NumberSpan, count: i128, limit: u64) -> (r: Option<u64>)
    requires
        span_fits(s@, *n),
        limit <= 1_000_000_000_000_000_000,
    ensures
        r == (if shifted_value(mantissa(s@, *n), count as int) <= limit {
            Some(shifted_value(mantissa(s@, *n), count as int) as u64)
        } else {
            None
        }),
{
    let ghost digits = mantissa(s@, *n);
    let total: usize = (n.int_to - n.int_from) + (n.frac_to - n.frac_from);
    let mut acc: u64 = 0;
    let mut j: i128 = 0;
    while j < count
        invariant
            0 <= j,
            j <= count || count < 0,
            count < 0 ==> j == 0,
            span_fits(s@, *n),
            digits == mantissa(s@, *n),
            total == (n.int_to - n.int_from) + (n.frac_to - n.frac_from),
            total == digits.len(),
            acc == shifted_value(digits, j as int),
            acc <= limit <= 1_000_000_000_000_000_000,
        decreases count - j,
    {
        let digit: u64 = if j < total as i128 {
            (mantissa_digit(s, n, j as usize) - CH_ZERO) as u64
        } else {
            if acc == 0 {
                proof {
                    lemma_shifted_value_stays_zero(digits, j as int, count as int);
                }
                return Some(0);
            }
            0
        };
        let next: u64 = acc * 10 + digit;
        if next > limit {
            proof {
                lemma_shifted_value_grows(digits, j + 1, count as int);
            }
            return None;
        }
        acc = next;
        j = j + 1;
    }
    Some(acc)
}

/// Value of a literal in millionths.
pub fn number_value(s: &[u8], n: &NumberSpan) -> (r: Option<i64>)
    requires
        span_fits(s@, *n),
    ensures
        r == fixed_value(s@, *n),
        r matches Some(v) ==> -LENGTH_MAX <= v <= LENGTH_MAX && (!n.negative ==> v >= 0),
{
    let e = exponent_of(s, n);
    let count: i128 = ((n.int_to - n.int_from) as i128) + e + 6;
    match cut_value(s, n, count, LENGTH_MAX as u64) {
        Some(magnitude) => if n.negative {
            Some(-(magnitude as i64))
        } else {
            Some(magnitude as i64)
        },
        None => None,
    }
}

/// Where the three literals of a point stand.
#[derive(Clone, Copy, Debug, PartialEq, Eq, Structural)]
pub struct PointSpan {
    pub x: NumberSpan,
    pub y: NumberSpan,
    pub z: NumberSpan,
}

/// The point that begins at `i`, if one does: `(`, three signed literals
/// with commas between them, `)`, with any white space around the literals.
pub open spec fn point_at(s: Seq<u8>, i: int) -> Option<PointSpan> {
    let x_from = run_end(s, i + 1, ByteClass::Space);
    match number_at(s, x_from, true) {
        None => None,
        Some(x) => {
            let comma1 = run_end(s, x.end as int, ByteClass::Space);
            let y_from = run_end(s, comma1 + 1, ByteClass::Space);
            match number_at(s, y_from, true) {
                None => None,
                Some(y) => {
                    let comma2 = run_end(s, y.end as int, ByteClass::Space);
                    let z_from = run_end(s, comma2 + 1, ByteClass::Space);
                    match number_at(s, z_from, true) {
                        None => None,
                        Some(z) => {
                            let close = run_end(s, z.end as int, ByteClass::Space);
                            if 0 <= i < s.len() && s[i] == CH_OPEN && comma1 < s.len()
                                && s[comma1] == CH_COMMA && comma2 < s.len() && s[comma2]
                                == CH_COMMA && close < s.len() && s[close] == CH_CLOSE {
                                Some(PointSpan { x, y, z })
                            } else {
                                None
                            }
                        },
                    }
                },
            }
        },
    }
}

/// The first point of the text from `from` on.
pub open spec fn first_point_from(s: Seq<u8>, from: int) -> Option<PointSpan>
    decreases s.len() - from,
{
    if from < 0 || from >= s.len() {
        None
    } else {
        match point_at(s, from) {
            Some(p) => Some(p),
            None => first_point_from(s, from + 1),
        }
    }
}

/// The three values of a point, where each is within `LENGTH_MAX`.
pub open spec fn point_value(s: Seq<u8>, p: PointSpan) -> Option<[i64; 3]> {
    match (fixed_value(s, p.x), fixed_value(s, p.y), fixed_value(s, p.z)) {
        (Some(x), Some(y), Some(z)) => Some([x, y, z]),
        _ => None,
    }
}

/// The first point that a payload writes, in millionths.
pub open spec fn point_of(s: Seq<u8>) -> Option<[i64; 3]> {
    match first_point_from(s, 0) {
        Some(p) => point_value(s, p),
        None => None,
    }
}

/// The point that begins at `i`, if one does.
pub fn scan_point(s: &[u8], i: usize) -> (r: Option<PointSpan>)
    requires
        i < s@.len(),
    ensures
        r == point_at(s@, i as int),
        r matches Some(p) ==> span_fits(s@, p.x) && span_fits(s@, p.y) && span_fits(s@, p.z),
{
    if s[i] != CH_OPEN {
        return None;
    }
    let x_from = skip_run(s, i + 1, ByteClass::Space);
    let x = match scan_number(s, x_from, true) {
        Some(n) => n,
        None => {
            return None;
        },
    };
    let comma1 = skip_run(s, x.end, ByteClass::Space);
    if comma1 >= s.len() || s[comma1] != CH_COMMA {
        return None;
    }
    let y_from = skip_run(s, comma1 + 1, ByteClass::Space);
    let y = match scan_number(s, y_from, true) {
        Some(n) => n,
        None => {
            return None;
        },
    };
    let comma2 = skip_run(s, y.end, ByteClass::Space);
    if comma2 >= s.len() || s[comma2] != CH_COMMA {
        return None;
    }
    let z_from = skip_run(s, comma2 + 1, ByteClass::Space);
    let z = match scan_number(s, z_from, true) {
        Some(n) => n,
        None => {
            return None;
        },
    };
    let close = skip_run(s, z.end, ByteClass::Space);
    if close >= s.len() || s[close] != CH_CLOSE {
        return None;
    }
    Some(PointSpan { x, y, z })
}

/// The first point that a payload writes.
pub fn find_point(data: &[u8]) -> (r: Option<PointSpan>)
    ensures
        r == first_point_from(data@, 0),
        r matches Some(p) ==> span_fits(data@, p.x) && span_fits(data@, p.y) && span_fits(
            data@,
            p.z,
        ),
{
    let mut pos: usize = 0;
    while pos < data.len()
        invariant
            pos <= data@.len(),
            first_point_from(data@, 0) == first_point_from(data@, pos as int),
        decreases data@.len() - pos,
    {
        match scan_point(data, pos) {
            Some(p) => {
                return Some(p);
            },
            None => {
                pos = pos + 1;
            },
        }
    }
    None
}

/// The first point that a payload writes, in millionths: none where the
/// payload writes no point, or where a coordinate is beyond `LENGTH_MAX`.
pub fn parse_cartesian_point(data: &[u8]) -> (r: Option<[i64; 3]>)
    ensures
        r == point_of(data@),
        r matches Some(p) ==> within(p, LENGTH_MAX as int),
{
    match find_point(data) {
        Some(p) => {
            let x = number_value(data, &p.x);
            let y = number_value(data, &p.y);
            let z = number_value(data, &p.z);
            match (x, y, z) {
                (Some(x), Some(y), Some(z)) => Some([x, y, z]),
                _ => None,
            }
        },
        None => None,
    }
}

/// The last unsigned literal of the text from `from` on, or `found` where
/// there is none. After a literal the search goes on behind it.
pub open spec fn last_number_from(s: Seq<u8>, from: int, found: Option<NumberSpan>) -> Option<
    NumberSpan,
>
    decreases s.len() - from,
{
    if from < 0 || from >= s.len() {
        found
    } else {
        match number_at(s, from, false) {
            Some(n) => if from < n.end <= s.len() {
                last_number_from(s, n.end as int, Some(n))
            } else {
                found
            },
            None => last_number_from(s, from + 1, found),
        }
    }
}

/// Value of the last unsigned literal that a payload writes, in millionths.
pub open spec fn trailing_number(s: Seq<u8>) -> Option<i64> {
    match last_number_from(s, 0, None) {
        Some(n) => fixed_value(s, n),
        None => None,
    }
}

/// Value of the last unsigned literal that a payload writes: none where the
/// payload writes no literal, or where the value is beyond `LENGTH_MAX`.
pub fn parse_trailing_number(data: &[u8]) -> (r: Option<i64>)
    ensures
        r == trailing_number(data@),
        r matches Some(v) ==> 0 <= v <= LENGTH_MAX,
{
    let mut found: Option<NumberSpan> = None;
    let mut pos: usize = 0;
    while pos < data.len()
        invariant
            pos <= data@.len(),
            last_number_from(data@, 0, None) == last_number_from(data@, pos as int, found),
            found matches Some(n) ==> span_fits(data@, n) && !n.negative,
        decreases data@.len() - pos,
    {
        match scan_number(data, pos, false) {
            Some(n) => {
                found = Some(n);
                pos = n.end;
            },
            None => {
                pos = pos + 1;
            },
        }
    }
    match found {
        Some(n) => number_value(data, &n),
        None => None,
    }
}

/// Number of zeros that `s[from..to]` begins with.
pub open spec fn zeros_in(s: Seq<u8>, from: int, to: int) -> int {
    let end = run_end(s, from, ByteClass::Only(CH_ZERO));
    if end < to {
        end - from
    } else {
        to - from
    }
}

/// Number of zeros that the mantissa of a literal begins with.
pub open spec fn leading_zeros(s: Seq<u8>, n: NumberSpan) -> int {
    let whole = zeros_in(s, n.int_from as int, n.int_to as int);
    if whole < n.int_to - n.int_from {
        whole
    } else {
        whole + zeros_in(s, n.frac_from as int, n.frac_to as int)
    }
}

/// The literal writes zero: its mantissa holds no digit but zeros.
pub open spec fn is_zero_literal(s: Seq<u8>, n: NumberSpan) -> bool {
    leading_zeros(s, n) == (n.int_to - n.int_from) + (n.frac_to - n.frac_from)
}

/// Decimal place of the first digit of a literal that is not zero: nought
/// for the ones, one for the tens, minus one for the tenths.
pub open spec fn leading_place(s: Seq<u8>, n: NumberSpan) -> int {
    (n.int_to - n.int_from) + exponent(s, n) - 1 - leading_zeros(s, n)
}

/// The higher of two places, of which either may be missing.
pub open spec fn higher(a: Option<int>, b: Option<int>) -> Option<int> {
    match (a, b) {
        (Some(x), Some(y)) => if x >= y {
            Some(x)
        } else {
            Some(y)
        },
        (Some(x), None) => Some(x),
        (None, b) => b,
    }
}

/// The leading place of a literal that is not zero.
pub open spec fn place_of(s: Seq<u8>, n: NumberSpan) -> Option<int> {
    if is_zero_literal(s, n) {
        None
    } else {
        Some(leading_place(s, n))
    }
}

/// The highest leading place of the three coordinates; none where all three
/// are zero.
pub open spec fn top_place(s: Seq<u8>, p: PointSpan) -> Option<int> {
    higher(higher(place_of(s, p.x), place_of(s, p.y)), place_of(s, p.z))
}

/// Number of digits of the mantissa that stand at or above the twelfth
/// place below `top`.
pub open spec fn kept_digits(s: Seq<u8>, n: NumberSpan, top: int) -> int {
    (n.int_to - n.int_from) + exponent(s, n) + 11 - top
}

/// Magnitude of a coordinate in steps of the twelfth place below `top`,
/// cut off.
pub open spec fn scaled_magnitude(s: Seq<u8>, n: NumberSpan, top: int) -> nat {
    shifted_value(mantissa(s, n), kept_digits(s, n, top))
}

/// The cut has dropped a digit that is not zero.
pub open spec fn has_dropped(s: Seq<u8>, n: NumberSpan, top: int) -> bool {
    exists|j: int|
        0 <= j < mantissa(s, n).len() && kept_digits(s, n, top) <= j && #[trigger] mantissa(s, n)[j]
            != CH_ZERO
}

/// Magnitude of a coordinate in steps of the twelfth place below `top`,
/// rounded up.
pub open spec fn upper_magnitude(s: Seq<u8>, n: NumberSpan, top: int) -> nat {
    if has_dropped(s, n, top) {
        scaled_magnitude(s, n, top) + 1
    } else {
        scaled_magnitude(s, n, top)
    }
}

/// Square of the length of the vector in those steps, with every coordinate
/// rounded up: no less than the square of the length as written.
pub open spec fn upper_square(s: Seq<u8>, p: PointSpan, top: int) -> nat {
    upper_magnitude(s, p.x, top) * upper_magnitude(s, p.x, top) + upper_magnitude(s, p.y, top)
        * upper_magnitude(s, p.y, top) + upper_magnitude(s, p.z, top) * upper_magnitude(
        s,
        p.z,
        top,
    )
}

/// The vector is longer than a tenth of a thousand-millionth, read to its
/// twelve leading places and rounded up. A vector whose highest place is
/// above the tenth behind the point is; one whose highest place is below the
/// eleventh is not; between them the square of the length decides.
pub open spec fn is_long_enough(s: Seq<u8>, p: PointSpan, top: int) -> bool {
    top >= -9 || (top == -10 && upper_square(s, p, top) > 10_000_000_000_000_000_000_000) || (top
        == -11 && upper_square(s, p, top) > 1_000_000_000_000_000_000_000_000)
}

/// A coordinate in steps of the twelfth place below `top`, with its sign.
pub open spec fn scaled_coordinate(s: Seq<u8>, n: NumberSpan, top: int) -> i64 {
    if n.negative {
        (-(scaled_magnitude(s, n, top) as int)) as i64
    } else {
        scaled_magnitude(s, n, top) as i64
    }
}

/// The vector in steps of the twelfth place below its highest place.
pub open spec fn scaled_vector(s: Seq<u8>, p: PointSpan, top: int) -> [i64; 3] {
    [scaled_coordinate(s, p.x, top), scaled_coordinate(s, p.y, top), scaled_coordinate(s, p.z, top)]
}

/// The direction of a written vector with length one, in millionths. The
/// vector is given length one before it is cut to millionths, whatever its
/// magnitude. A vector no longer than a tenth of a thousand-millionth keeps
/// its length, which in millionths is zero.
pub open spec fn direction_of(s: Seq<u8>, p: PointSpan) -> [i64; 3] {
    match top_place(s, p) {
        Some(top) => if is_long_enough(s, p, top) {
            normalize_spec(scaled_vector(s, p, top))
        } else {
            [0, 0, 0]
        },
        None => [0, 0, 0],
    }
}

/// The direction that the first point of a payload writes.
pub open spec fn direction_in(s: Seq<u8>) -> Option<[i64; 3]> {
    match first_point_from(s, 0) {
        Some(p) => Some(direction_of(s, p)),
        None => None,
    }
}

/// The mantissa begins with as many zeros as `leading_zeros` says, and the
/// digit behind them, where there is one, is not zero.
pub proof fn lemma_leading_zeros(s: Seq<u8>, n: NumberSpan)
    requires
        span_fits(s, n),
    ensures
        0 <= leading_zeros(s, n) <= mantissa(s, n).len(),
        mantissa(s, n).len() == (n.int_to - n.int_from) + (n.frac_to - n.frac_from),
        all_digits(mantissa(s, n)),
        forall|j: int| 0 <= j < leading_zeros(s, n) ==> #[trigger] mantissa(s, n)[j] == CH_ZERO,
        leading_zeros(s, n) < mantissa(s, n).len() ==> mantissa(s, n)[leading_zeros(s, n)]
            != CH_ZERO,
{
    let d = mantissa(s, n);
    let whole = s.subrange(n.int_from as int, n.int_to as int);
    let part = s.subrange(n.frac_from as int, n.frac_to as int);
    let int_len = n.int_to - n.int_from;
    lemma_run_end(s, n.int_from as int, ByteClass::Only(CH_ZERO));
    lemma_run_end(s, n.frac_from as int, ByteClass::Only(CH_ZERO));
    assert forall|j: int| 0 <= j < d.len() implies ByteClass::Digit.has(#[trigger] d[j]) by {
        if j < int_len {
            assert(d[j] == whole[j]);
        } else {
            assert(d[j] == part[j - int_len]);
        }
    }
    assert forall|j: int| 0 <= j < leading_zeros(s, n) implies #[trigger] d[j] == CH_ZERO by {
        if j < int_len {
            assert(d[j] == whole[j]);
            assert(whole[j] == s[n.int_from + j]);
        } else {
            assert(d[j] == part[j - int_len]);
            assert(part[j - int_len] == s[n.frac_from + (j - int_len)]);
        }
    }
    let lead = leading_zeros(s, n);
    if lead < d.len() {
        if lead < int_len {
            assert(d[lead] == whole[lead]);
            assert(whole[lead] == s[n.int_from + lead]);
        } else {
            assert(d[lead] == part[lead - int_len]);
            assert(part[lead - int_len] == s[n.frac_from + (lead - int_len)]);
        }
    }
}

/// Digits that begin with `lead` zeros write, cut after at most `k` digits
/// more, a number below ten to the power `k`.
pub proof fn lemma_cut_is_short(digits: Seq<u8>, lead: int, count: int, k: nat)
    requires
        all_digits(digits),
        0 <= lead <= digits.len(),
        forall|j: int| 0 <= j < lead ==> #[trigger] digits[j] == CH_ZERO,
        count <= lead + k,
    ensures
        shifted_value(digits, count) < pow10(k),
    decreases count,
{
    lemma_pow10_positive(k);
    if count > 0 {
        let digit = stream_digit(digits, count - 1);
        assert(digit <= 9) by {
            if count - 1 < digits.len() {
                assert(ByteClass::Digit.has(digits[count - 1]));
            }
        }
        if count <= lead {
            lemma_cut_is_short(digits, lead, count - 1, 0);
            assert(pow10(0) == 1);
            assert(digits[count - 1] == CH_ZERO);
        } else {
            lemma_cut_is_short(digits, lead, count - 1, (k - 1) as nat);
        }
    }
}

/// Digits with a digit that is not zero write, cut behind that digit, a
/// number that is not zero.
pub proof fn lemma_cut_is_positive(digits: Seq<u8>, lead: int, count: int)
    requires
        all_digits(digits),
        0 <= lead < digits.len(),
        digits[lead] != CH_ZERO,
        count > lead,
    ensures
        shifted_value(digits, count) >= 1,
{
    assert(ByteClass::Digit.has(digits[lead]));
    assert(stream_digit(digits, lead) >= 1);
    assert(shifted_value(digits, lead + 1) >= 1);
    lemma_shifted_value_grows(digits, lead + 1, count);
}

/// What is known of one coordinate of a written vector.
struct Coordinate {
    span: NumberSpan,
    exponent: i128,
    int_len: usize,
    total: usize,
    lead: usize,
}

fn read_coordinate(s: &[u8], n: &NumberSpan) -> (c: Coordinate)
    requires
        span_fits(s@, *n),
    ensures
        c.span == *n,
        c.exponent == exponent(s@, *n),
        -0xffff_ffff_ffff_ffff <= c.exponent <= 0xffff_ffff_ffff_ffff,
        c.int_len == n.int_to - n.int_from,
        c.total == mantissa(s@, *n).len(),
        c.lead == leading_zeros(s@, *n),
        c.lead <= c.total,
        c.int_len <= c.total,
{
    proof {
        lemma_leading_zeros(s@, *n);
    }
    let int_len: usize = n.int_to - n.int_from;
    let frac_len: usize = n.frac_to - n.frac_from;
    let whole_end = skip_run(s, n.int_from, ByteClass::Only(CH_ZERO));
    let whole: usize = if whole_end < n.int_to {
        whole_end - n.int_from
    } else {
        int_len
    };
    let lead: usize = if whole < int_len {
        whole
    } else {
        let part_end = skip_run(s, n.frac_from, ByteClass::Only(CH_ZERO));
        let part: usize = if part_end < n.frac_to {
            part_end - n.frac_from
        } else {
            frac_len
        };
        whole + part
    };
    Coordinate { span: *n, exponent: exponent_of(s, n), int_len, total: int_len + frac_len, lead }
}

fn coordinate_place(c: &Coordinate) -> (r: Option<i128>)
    requires
        c.lead <= c.total,
        c.int_len <= c.total,
        -0xffff_ffff_ffff_ffff <= c.exponent <= 0xffff_ffff_ffff_ffff,
    ensures
        r == (if c.lead == c.total {
            None::<i128>
        } else {
            Some((c.int_len + c.exponent - 1 - c.lead) as i128)
        }),
{
    if c.lead == c.total {
        None
    } else {
        Some((c.int_len as i128) + c.exponent - 1 - (c.lead as i128))
    }
}

fn higher_place(a: Option<i128>, b: Option<i128>) -> (r: Option<i128>)
    ensures
        r == (match (a, b) {
            (Some(x), Some(y)) => if x >= y {
                Some(x)
            } else {
                Some(y)
            },
            (Some(x), None) => Some(x),
            (None, b) => b,
        }),
{
    match (a, b) {
        (Some(x), Some(y)) => if x >= y {
            Some(x)
        } else {
            Some(y)
        },
        (Some(x), None) => Some(x),
        (None, b) => b,
    }
}

/// Whether the cut has dropped a digit that is not zero.
fn any_dropped(s: &[u8], c: &Coordinate, kept: i128) -> (r: bool)
    requires
        span_fits(s@, c.span),
        c.total == mantissa(s@, c.span).len(),
        c.int_len == c.span.int_to - c.span.int_from,
    ensures
        r == (exists|j: int|
            0 <= j < mantissa(s@, c.span).len() && kept <= j && #[trigger] mantissa(s@, c.span)[j]
                != CH_ZERO),
{
    let mut j: usize = if kept <= 0 {
        0
    } else if kept >= c.total as i128 {
        c.total
    } else {
        kept as usize
    };
    let ghost from = j;
    while j < c.total
        invariant
            from <= j <= c.total,
            kept <= from || from == c.total,
            span_fits(s@, c.span),
            c.total == mantissa(s@, c.span).len(),
            c.int_len == c.span.int_to - c.span.int_from,
            forall|i: int| from <= i < j ==> #[trigger] mantissa(s@, c.span)[i] == CH_ZERO,
        decreases c.total - j,
    {
        if mantissa_digit(s, &c.span, j) != CH_ZERO {
            assert(mantissa(s@, c.span)[j as int] != CH_ZERO);
            return true;
        }
        j = j + 1;
    }
    false
}

/// Magnitude of a coordinate in steps of the twelfth place below `top`, cut
/// off and rounded up.
fn scale_coordinate(s: &[u8], c: &Coordinate, top: i128) -> (r: (u64, u64))
    requires
        span_fits(s@, c.span),
        c.exponent == exponent(s@, c.span),
        -0xffff_ffff_ffff_ffff <= c.exponent <= 0xffff_ffff_ffff_ffff,
        -0x4_0000_0000_0000_0000 <= top <= 0x4_0000_0000_0000_0000,
        c.int_len == c.span.int_to - c.span.int_from,
        c.total == mantissa(s@, c.span).len(),
        c.lead == leading_zeros(s@, c.span),
        c.lead < c.total ==> leading_place(s@, c.span) <= top,
    ensures
        r.0 == scaled_magnitude(s@, c.span, top as int),
        r.1 == upper_magnitude(s@, c.span, top as int),
        r.0 < 1_000_000_000_000,
        c.lead < c.total && leading_place(s@, c.span) == top ==> r.0 >= 1,
{
    let kept: i128 = (c.int_len as i128) + c.exponent + 11 - top;
    proof {
        lemma_leading_zeros(s@, c.span);
        let d = mantissa(s@, c.span);
        lemma_scaled_is_short(s@, c.span, top as int);
        if c.lead < c.total && leading_place(s@, c.span) == top {
            lemma_cut_is_positive(d, c.lead as int, kept as int);
        }
    }
    let cut: u64 = match cut_value(s, &c.span, kept, 999_999_999_999) {
        Some(v) => v,
        None => 0,
    };
    let upper: u64 = if any_dropped(s, c, kept) {
        cut + 1
    } else {
        cut
    };
    (cut, upper)
}

fn signed(magnitude: u64, negative: bool) -> (r: i64)
    requires
        magnitude < 1_000_000_000_000,
    ensures
        r == (if negative {
            -(magnitude as int)
        } else {
            magnitude as int
        }),
{
    if negative {
        -(magnitude as i64)
    } else {
        magnitude as i64
    }
}

/// Whether a vector with the highest place `top` and the given rounded-up
/// magnitudes is long enough.
fn is_square_long_enough(top: i128, ux: u64, uy: u64, uz: u64) -> (r: bool)
    requires
        ux <= 1_000_000_000_000,
        uy <= 1_000_000_000_000,
        uz <= 1_000_000_000_000,
    ensures
        r == (top >= -9 || (top == -10 && ux * ux + uy * uy + uz * uz
            > 10_000_000_000_000_000_000_000) || (top == -11 && ux * ux + uy * uy + uz * uz
            > 1_000_000_000_000_000_000_000_000)),
{
    if top >= -9 {
        return true;
    }
    if top < -11 {
        return false;
    }
    let x: u128 = ux as u128;
    let y: u128 = uy as u128;
    let z: u128 = uz as u128;
    assert(x * x <= 1_000_000_000_000_000_000_000_000 && y * y
        <= 1_000_000_000_000_000_000_000_000 && z * z <= 1_000_000_000_000_000_000_000_000)
        by (nonlinear_arith)
        requires
            x <= 1_000_000_000_000,
            y <= 1_000_000_000_000,
            z <= 1_000_000_000_000,
    ;
    let square: u128 = x * x + y * y + z * z;
    if top == -10 {
        square > 10_000_000_000_000_000_000_000
    } else {
        square > 1_000_000_000_000_000_000_000_000
    }
}

/// The highest leading place of three coordinates.
fn top_of(s: &[u8], p: &PointSpan, x: &Coordinate, y: &Coordinate, z: &Coordinate) -> (r: Option<
    i128,
>)
    requires
        span_fits(s@, p.x) && span_fits(s@, p.y) && span_fits(s@, p.z),
        x.span == p.x && y.span == p.y && z.span == p.z,
        x.lead == leading_zeros(s@, p.x) && y.lead == leading_zeros(s@, p.y) && z.lead
            == leading_zeros(s@, p.z),
        x.total == mantissa(s@, p.x).len() && y.total == mantissa(s@, p.y).len() && z.total
            == mantissa(s@, p.z).len(),
        x.int_len == p.x.int_to - p.x.int_from && y.int_len == p.y.int_to - p.y.int_from
            && z.int_len == p.z.int_to - p.z.int_from,
        x.exponent == exponent(s@, p.x) && y.exponent == exponent(s@, p.y) && z.exponent
            == exponent(s@, p.z),
        x.lead <= x.total && y.lead <= y.total && z.lead <= z.total,
        x.int_len <= x.total && y.int_len <= y.total && z.int_len <= z.total,
        -0xffff_ffff_ffff_ffff <= x.exponent <= 0xffff_ffff_ffff_ffff,
        -0xffff_ffff_ffff_ffff <= y.exponent <= 0xffff_ffff_ffff_ffff,
        -0xffff_ffff_ffff_ffff <= z.exponent <= 0xffff_ffff_ffff_ffff,
    ensures
        match r {
            Some(top) => top_place(s@, *p) == Some(top as int) && -0x4_0000_0000_0000_0000 <= top
                <= 0x4_0000_0000_0000_0000,
            None => top_place(s@, *p) is None,
        },
        r matches Some(top) ==> (x.lead < x.total ==> leading_place(s@, p.x) <= top) && (y.lead
            < y.total ==> leading_place(s@, p.y) <= top) && (z.lead < z.total ==> leading_place(
            s@,
            p.z,
        ) <= top),
{
    let px = coordinate_place(x);
    let py = coordinate_place(y);
    let pz = coordinate_place(z);
    proof {
        lemma_leading_zeros(s@, p.x);
        lemma_leading_zeros(s@, p.y);
        lemma_leading_zeros(s@, p.z);
    }
    assert(place_of(s@, p.x) == (match px {
        Some(v) => Some(v as int),
        None => None::<int>,
    }));
    assert(place_of(s@, p.y) == (match py {
        Some(v) => Some(v as int),
        None => None::<int>,
    }));
    assert(place_of(s@, p.z) == (match pz {
        Some(v) => Some(v as int),
        None => None::<int>,
    }));
    let first = higher_place(px, py);
    assert(higher(place_of(s@, p.x), place_of(s@, p.y)) == (match first {
        Some(v) => Some(v as int),
        None => None::<int>,
    }));
    higher_place(first, pz)
}

/// The direction of a written vector with length one.
#[verifier::rlimit(60)]
fn direction_at(s: &[u8], p: &PointSpan) -> (r: [i64; 3])
    requires
        span_fits(s@, p.x),
        span_fits(s@, p.y),
        span_fits(s@, p.z),
    ensures
        r == direction_of(s@, *p),
        within(r, SCALE as int),
{
    let x = read_coordinate(s, &p.x);
    let y = read_coordinate(s, &p.y);
    let z = read_coordinate(s, &p.z);
    let top = match top_of(s, p, &x, &y, &z) {
        Some(top) => top,
        None => {
            return [0, 0, 0];
        },
    };
    let wx = scale_coordinate(s, &x, top);
    let wy = scale_coordinate(s, &y, top);
    let wz = scale_coordinate(s, &z, top);
    let long_enough = is_square_long_enough(top, wx.1, wy.1, wz.1);
    assert(long_enough == is_long_enough(s@, *p, top as int));
    if !long_enough {
        return [0, 0, 0];
    }
    let v: [i64; 3] = [signed(wx.0, p.x.negative), signed(wy.0, p.y.negative), signed(
        wz.0,
        p.z.negative,
    )];
    assert(v == scaled_vector(s@, *p, top as int));
    normalize(&v)
}

/// The direction that a payload writes, with length one: none where the
/// payload writes no point.
pub fn parse_direction(data: &[u8]) -> (r: Option<[i64; 3]>)
    ensures
        r == direction_in(data@),
        r matches Some(d) ==> within(d, SCALE as int),
{
    match find_point(data) {
        Some(p) => Some(direction_at(data, &p)),
        None => None,
    }
}

/// No coordinate of a direction is beyond `SCALE`.
pub proof fn lemma_direction_in_range(s: Seq<u8>)
    ensures
        direction_in(s) matches Some(d) ==> within(d, SCALE as int),
{
    match first_point_from(s, 0) {
        Some(p) => {
            match top_place(s, p) {
                Some(top) => {
                    lemma_normalize_in_range(scaled_vector(s, p, top));
                },
                None => {},
            }
        },
        None => {},
    }
}

/// Every direction that is given length one has it within one millionth: a
/// written vector that is long enough comes back with a length between
/// `SCALE - 1` and `SCALE + 1`.
pub proof fn lemma_direction_has_length_one(s: Seq<u8>, p: PointSpan)
    requires
        span_fits(s, p.x),
        span_fits(s, p.y),
        span_fits(s, p.z),
        top_place(s, p) matches Some(top) && is_long_enough(s, p, top),
    ensures
        ({
            let d = direction_of(s, p);
            let square = d[0] * d[0] + d[1] * d[1] + d[2] * d[2];
            (SCALE - 1) * (SCALE - 1) <= square <= (SCALE + 1) * (SCALE + 1)
        }),
{
    let top = top_place(s, p).unwrap();
    let v = scaled_vector(s, p, top);
    lemma_leading_zeros(s, p.x);
    lemma_leading_zeros(s, p.y);
    lemma_leading_zeros(s, p.z);
    reveal_with_fuel(pow10, 13);
    lemma_scaled_is_short(s, p.x, top);
    lemma_scaled_is_short(s, p.y, top);
    lemma_scaled_is_short(s, p.z, top);
    let n = if place_of(s, p.x) == Some(top) {
        p.x
    } else if place_of(s, p.y) == Some(top) {
        p.y
    } else {
        p.z
    };
    assert(place_of(s, n) == Some(top));
    lemma_cut_is_positive(mantissa(s, n), leading_zeros(s, n), kept_digits(s, n, top));
    let m = scaled_magnitude(s, n, top);
    assert(m * m >= 1) by (nonlinear_arith)
        requires
            m >= 1,
    ;
    assert(v[0] * v[0] >= 0 && v[1] * v[1] >= 0 && v[2] * v[2] >= 0) by (nonlinear_arith);
    assert(v[0] * v[0] == scaled_magnitude(s, p.x, top) * scaled_magnitude(s, p.x, top))
        by (nonlinear_arith)
        requires
            v[0] == scaled_magnitude(s, p.x, top) || v[0] == -scaled_magnitude(s, p.x, top),
    ;
    assert(v[1] * v[1] == scaled_magnitude(s, p.y, top) * scaled_magnitude(s, p.y, top))
        by (nonlinear_arith)
        requires
            v[1] == scaled_magnitude(s, p.y, top) || v[1] == -scaled_magnitude(s, p.y, top),
    ;
    assert(v[2] * v[2] == scaled_magnitude(s, p.z, top) * scaled_magnitude(s, p.z, top))
        by (nonlinear_arith)
        requires
            v[2] == scaled_magnitude(s, p.z, top) || v[2] == -scaled_magnitude(s, p.z, top),
    ;
    crate::geometry::lemma_normalized_length(v);
}

/// Magnitude of a literal in steps of the place `t` behind the point, cut
/// off: no more than the magnitude as written, and less than one step below
/// it.
pub open spec fn floor_at(s: Seq<u8>, n: NumberSpan, t: int) -> nat {
    shifted_value(mantissa(s, n), (n.int_to - n.int_from) + exponent(s, n) + t)
}

/// Square of the length of a written vector in steps of the place `t`
/// behind the point, with every coordinate cut off: no more than the square
/// of the length as written.
pub open spec fn square_at(s: Seq<u8>, p: PointSpan, t: int) -> nat {
    floor_at(s, p.x, t) * floor_at(s, p.x, t) + floor_at(s, p.y, t) * floor_at(s, p.y, t)
        + floor_at(s, p.z, t) * floor_at(s, p.z, t)
}

/// The vector as written is longer than a tenth of a thousand-millionth:
/// read to some place behind the point, the square of its length exceeds
/// the square of that.
pub open spec fn is_longer_than_threshold(s: Seq<u8>, p: PointSpan) -> bool {
    exists|t: int| t >= 10 && #[trigger] square_at(s, p, t) > pow10((2 * t - 20) as nat)
}

/// The digits from place `count` on hold one that is not zero.
pub open spec fn has_digit_from(digits: Seq<u8>, count: int) -> bool {
    exists|j: int| 0 <= j < digits.len() && count <= j && #[trigger] digits[j] != CH_ZERO
}

/// Read `k` digits further, digits write ten to the power `k` times as much,
/// and less than one step more.
proof fn lemma_more_digits(digits: Seq<u8>, count: int, k: nat)
    requires
        all_digits(digits),
    ensures
        shifted_value(digits, count + k) >= shifted_value(digits, count) * pow10(k),
        has_digit_from(digits, count) ==> shifted_value(digits, count + k) + 1 <= (shifted_value(
            digits,
            count,
        ) + 1) * pow10(k),
        !has_digit_from(digits, count) ==> shifted_value(digits, count + k) == shifted_value(
            digits,
            count,
        ) * pow10(k),
    decreases k,
{
    let base = shifted_value(digits, count);
    if k == 0 {
        assert(base * pow10(0) == base && (base + 1) * pow10(0) == base + 1) by (nonlinear_arith)
            requires
                pow10(0) == 1,
        ;
    } else {
        lemma_more_digits(digits, count, (k - 1) as nat);
        let before = shifted_value(digits, count + k - 1);
        let after = shifted_value(digits, count + k);
        let power = pow10((k - 1) as nat);
        lemma_pow10_positive((k - 1) as nat);
        assert(base * pow10(k) == 10 * (base * power) && (base + 1) * pow10(k) == 10 * ((base + 1)
            * power)) by (nonlinear_arith)
            requires
                pow10(k) == 10 * power,
        ;
        if count + k <= 0 {
            lemma_shifted_value_grows(digits, count, count + k);
            assert(base * power == 0) by (nonlinear_arith)
                requires
                    base == 0,
            ;
            assert((base + 1) * power >= 1) by (nonlinear_arith)
                requires
                    base == 0,
                    power >= 1,
            ;
        } else {
            let digit = stream_digit(digits, count + k - 1);
            assert(after == before * 10 + digit);
            assert(digit <= 9) by {
                if count + k - 1 < digits.len() {
                    assert(ByteClass::Digit.has(digits[count + k - 1]));
                }
            }
            if !has_digit_from(digits, count) {
                if 0 <= count + k - 1 < digits.len() {
                    assert(digits[count + k - 1] == CH_ZERO);
                }
                assert(digit == 0);
            }
        }
    }
}

/// Digits that are all zero write zero, however many are read.
proof fn lemma_zero_digits(digits: Seq<u8>, count: int)
    requires
        all_digits(digits),
        forall|j: int| 0 <= j < digits.len() ==> #[trigger] digits[j] == CH_ZERO,
    ensures
        shifted_value(digits, count) == 0,
{
    let len = digits.len() as int;
    lemma_cut_is_short(digits, len, len, 0);
    assert(pow10(0) == 1);
    if count > len {
        lemma_shifted_value_stays_zero(digits, len, count);
    } else {
        lemma_shifted_value_grows(digits, count, len);
    }
}

/// The square of a sum of three squares grows with each of them.
proof fn lemma_squares_grow(a: (int, int, int), b: (int, int, int), scale: int)
    requires
        scale >= 0,
        0 <= a.0 <= b.0 * scale,
        0 <= a.1 <= b.1 * scale,
        0 <= a.2 <= b.2 * scale,
    ensures
        a.0 * a.0 + a.1 * a.1 + a.2 * a.2 <= (b.0 * b.0 + b.1 * b.1 + b.2 * b.2) * (scale * scale),
{
    lemma_square_grows(a.0, b.0, scale);
    lemma_square_grows(a.1, b.1, scale);
    lemma_square_grows(a.2, b.2, scale);
    assert((b.0 * b.0 + b.1 * b.1 + b.2 * b.2) * (scale * scale) == (b.0 * b.0) * (scale * scale)
        + (b.1 * b.1) * (scale * scale) + (b.2 * b.2) * (scale * scale)) by (nonlinear_arith);
}

proof fn lemma_square_grows(a: int, b: int, scale: int)
    requires
        0 <= a <= b * scale,
    ensures
        a * a <= (b * b) * (scale * scale),
{
    let c = b * scale;
    assert(a * a <= c * c) by (nonlinear_arith)
        requires
            0 <= a <= c,
    ;
    assert(c * c == (b * b) * (scale * scale)) by (nonlinear_arith)
        requires
            c == b * scale,
    ;
}

proof fn lemma_scaled_square(f: int, scale: int)
    ensures
        (f * scale) * (f * scale) == (f * f) * (scale * scale),
{
    assert((f * scale) * (f * scale) == (f * f) * (scale * scale)) by (nonlinear_arith);
}

/// The power of ten at two places is the product of the power at one and
/// the square of the power of their distance.
proof fn lemma_threshold_scales(low: nat, k: nat)
    ensures
        pow10(low + 2 * k) == pow10(low) * (pow10(k) * pow10(k)),
{
    lemma_pow10_adds(low, k);
    lemma_pow10_adds(low + k, k);
    assert((pow10(low) * pow10(k)) * pow10(k) == pow10(low) * (pow10(k) * pow10(k)))
        by (nonlinear_arith);
}

/// Where the square of the length read at the place `t` exceeds the
/// threshold there, the rounded-up square at the place `place` exceeds the
/// threshold there: for a place `t` behind `place`.
proof fn lemma_read_further(s: Seq<u8>, p: PointSpan, top: int, t: int)
    requires
        span_fits(s, p.x),
        span_fits(s, p.y),
        span_fits(s, p.z),
        12 - top <= t + 1,
        top <= -10,
        square_at(s, p, t) > pow10((2 * t - 20) as nat),
    ensures
        upper_square(s, p, top) > pow10((2 * (11 - top) - 20) as nat),
{
    let place = 11 - top;
    let k = (t - place) as nat;
    let scale = pow10(k);
    lemma_pow10_positive(k);
    lemma_leading_zeros(s, p.x);
    lemma_leading_zeros(s, p.y);
    lemma_leading_zeros(s, p.z);
    lemma_more_digits(mantissa(s, p.x), kept_digits(s, p.x, top), k);
    lemma_more_digits(mantissa(s, p.y), kept_digits(s, p.y, top), k);
    lemma_more_digits(mantissa(s, p.z), kept_digits(s, p.z, top), k);
    let ux = upper_magnitude(s, p.x, top) as int;
    let uy = upper_magnitude(s, p.y, top) as int;
    let uz = upper_magnitude(s, p.z, top) as int;
    let fx = floor_at(s, p.x, t) as int;
    let fy = floor_at(s, p.y, t) as int;
    let fz = floor_at(s, p.z, t) as int;
    lemma_upper_covers(scaled_magnitude(s, p.x, top) as int, ux, fx, scale);
    lemma_upper_covers(scaled_magnitude(s, p.y, top) as int, uy, fy, scale);
    lemma_upper_covers(scaled_magnitude(s, p.z, top) as int, uz, fz, scale);
    lemma_squares_grow((fx, fy, fz), (ux, uy, uz), scale);
    lemma_threshold_scales((2 * place - 20) as nat, k);
    let upper = ux * ux + uy * uy + uz * uz;
    let limit = pow10((2 * place - 20) as nat);
    let sq = scale * scale;
    assert(sq >= 1) by (nonlinear_arith)
        requires
            scale >= 1,
            sq == scale * scale,
    ;
    assert(upper * sq > limit * sq);
    assert(upper > limit) by (nonlinear_arith)
        requires
            upper * sq > limit * sq,
            sq >= 1,
    ;
}

/// The same for a place `t` before `place`.
proof fn lemma_read_nearer(s: Seq<u8>, p: PointSpan, top: int, t: int)
    requires
        span_fits(s, p.x),
        span_fits(s, p.y),
        span_fits(s, p.z),
        10 <= t < 11 - top,
        square_at(s, p, t) > pow10((2 * t - 20) as nat),
    ensures
        upper_square(s, p, top) > pow10((2 * (11 - top) - 20) as nat),
{
    let place = 11 - top;
    let k = (place - t) as nat;
    let scale = pow10(k);
    lemma_pow10_positive(k);
    lemma_leading_zeros(s, p.x);
    lemma_leading_zeros(s, p.y);
    lemma_leading_zeros(s, p.z);
    lemma_more_digits(mantissa(s, p.x), (p.x.int_to - p.x.int_from) + exponent(s, p.x) + t, k);
    lemma_more_digits(mantissa(s, p.y), (p.y.int_to - p.y.int_from) + exponent(s, p.y) + t, k);
    lemma_more_digits(mantissa(s, p.z), (p.z.int_to - p.z.int_from) + exponent(s, p.z) + t, k);
    let ux = upper_magnitude(s, p.x, top) as int;
    let uy = upper_magnitude(s, p.y, top) as int;
    let uz = upper_magnitude(s, p.z, top) as int;
    let fx = floor_at(s, p.x, t) as int;
    let fy = floor_at(s, p.y, t) as int;
    let fz = floor_at(s, p.z, t) as int;
    let gx = fx * scale;
    let gy = fy * scale;
    let gz = fz * scale;
    assert(gx >= 0 && gy >= 0 && gz >= 0) by (nonlinear_arith)
        requires
            fx >= 0,
            fy >= 0,
            fz >= 0,
            scale >= 1,
            gx == fx * scale,
            gy == fy * scale,
            gz == fz * scale,
    ;
    assert(ux * 1 == ux && uy * 1 == uy && uz * 1 == uz);
    lemma_squares_grow((gx, gy, gz), (ux, uy, uz), 1);
    lemma_scaled_square(fx, scale);
    lemma_scaled_square(fy, scale);
    lemma_scaled_square(fz, scale);
    lemma_threshold_scales((2 * t - 20) as nat, k);
    let upper = ux * ux + uy * uy + uz * uz;
    let limit = pow10((2 * place - 20) as nat);
    let low = pow10((2 * t - 20) as nat);
    let sq = scale * scale;
    let a = fx * fx;
    let b = fy * fy;
    let c = fz * fz;
    assert((a + b + c) * sq == a * sq + b * sq + c * sq) by (nonlinear_arith);
    assert(sq >= 1) by (nonlinear_arith)
        requires
            scale >= 1,
            sq == scale * scale,
    ;
    assert((a + b + c) * sq > low * sq) by (nonlinear_arith)
        requires
            a + b + c > low,
            sq >= 1,
    ;
    assert(upper * (1 * 1) == upper);
}

/// Every written vector that is longer than a tenth of a thousand-millionth
/// comes back with length one within a millionth, whatever its magnitude.
pub proof fn lemma_long_directions_have_length_one(s: Seq<u8>, p: PointSpan)
    requires
        span_fits(s, p.x),
        span_fits(s, p.y),
        span_fits(s, p.z),
        is_longer_than_threshold(s, p),
    ensures
        top_place(s, p) matches Some(top) && is_long_enough(s, p, top),
        ({
            let d = direction_of(s, p);
            let square = d[0] * d[0] + d[1] * d[1] + d[2] * d[2];
            (SCALE - 1) * (SCALE - 1) <= square <= (SCALE + 1) * (SCALE + 1)
        }),
{
    let t = choose|t: int| t >= 10 && #[trigger] square_at(s, p, t) > pow10((2 * t - 20) as nat);
    lemma_leading_zeros(s, p.x);
    lemma_leading_zeros(s, p.y);
    lemma_leading_zeros(s, p.z);
    lemma_pow10_positive((2 * t - 20) as nat);
    if top_place(s, p) is None {
        lemma_zero_digits(mantissa(s, p.x), (p.x.int_to - p.x.int_from) + exponent(s, p.x) + t);
        lemma_zero_digits(mantissa(s, p.y), (p.y.int_to - p.y.int_from) + exponent(s, p.y) + t);
        lemma_zero_digits(mantissa(s, p.z), (p.z.int_to - p.z.int_from) + exponent(s, p.z) + t);
        let fx = floor_at(s, p.x, t);
        let fy = floor_at(s, p.y, t);
        let fz = floor_at(s, p.z, t);
        assert(fx * fx + fy * fy + fz * fz == 0) by (nonlinear_arith)
            requires
                fx == 0,
                fy == 0,
                fz == 0,
        ;
        assert(false);
    }
    let top = top_place(s, p).unwrap();
    if top < -9 {
        if t >= 11 - top {
            lemma_read_further(s, p, top, t);
        } else {
            lemma_read_nearer(s, p, top, t);
        }
        let upper = upper_square(s, p, top) as int;
        reveal_with_fuel(pow10, 27);
        if top <= -12 {
            lemma_scaled_is_short(s, p.x, top);
            lemma_scaled_is_short(s, p.y, top);
            lemma_scaled_is_short(s, p.z, top);
            let ux = upper_magnitude(s, p.x, top) as int;
            let uy = upper_magnitude(s, p.y, top) as int;
            let uz = upper_magnitude(s, p.z, top) as int;
            assert(ux * ux + uy * uy + uz * uz <= 3_000_000_000_000_000_000_000_000)
                by (nonlinear_arith)
                requires
                    0 <= ux <= 1_000_000_000_000,
                    0 <= uy <= 1_000_000_000_000,
                    0 <= uz <= 1_000_000_000_000,
            ;
            lemma_pow10_grows(26, (2 * (11 - top) - 20) as nat);
            assert(false);
        }
    }
    lemma_direction_has_length_one(s, p);
}

/// The magnitude read further is at most the rounded-up magnitude times the
/// power of ten that it was read further by.
proof fn lemma_upper_covers(cut: int, upper: int, further: int, scale: int)
    requires
        scale >= 1,
        cut >= 0,
        upper == cut || upper == cut + 1,
        upper == cut + 1 ==> further + 1 <= (cut + 1) * scale,
        upper == cut ==> further == cut * scale,
        further >= 0,
    ensures
        0 <= further <= upper * scale,
{
}

/// A coordinate cut at the twelfth place below a place that is no lower than
/// its own is below ten to the twelfth.
proof fn lemma_scaled_is_short(s: Seq<u8>, n: NumberSpan, top: int)
    requires
        span_fits(s, n),
        place_of(s, n) matches Some(own) ==> own <= top,
    ensures
        scaled_magnitude(s, n, top) < 1_000_000_000_000,
{
    lemma_leading_zeros(s, n);
    reveal_with_fuel(pow10, 13);
    if is_zero_literal(s, n) {
        lemma_cut_is_short(mantissa(s, n), leading_zeros(s, n), leading_zeros(s, n), 0);
        lemma_shifted_value_stays_zero(
            mantissa(s, n),
            leading_zeros(s, n),
            if kept_digits(s, n, top) > leading_zeros(s, n) {
                kept_digits(s, n, top)
            } else {
                leading_zeros(s, n)
            },
        );
        lemma_shifted_value_grows(
            mantissa(s, n),
            kept_digits(s, n, top),
            if kept_digits(s, n, top) > leading_zeros(s, n) {
                kept_digits(s, n, top)
            } else {
                leading_zeros(s, n)
            },
        );
    } else {
        lemma_cut_is_short(mantissa(s, n), leading_zeros(s, n), kept_digits(s, n, top), 12);
    }
}

/// The point that a payload writes has no coordinate beyond `LENGTH_MAX`.
pub proof fn lemma_point_in_range(s: Seq<u8>)
    ensures
        point_of(s) matches Some(p) ==> within(p, LENGTH_MAX as int),
{
}

} // verus!
