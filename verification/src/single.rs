//! IEEE-754 single-precision values handled through their bit
//! patterns.
//!
//! Comparisons are implemented and verified directly on the bits.
//! Conversions between text or integers and bit patterns rely on the
//! `rustc_apfloat` software floating-point library, whose interface
//! carries bit patterns as plain integers.

use vstd::prelude::*;
use rustc_apfloat::Float;
use crate::text;

verus! {

/// Magnitude bits (everything but the sign).
pub open spec fn fb_mag(a: u32) -> u32 {
    a & 0x7FFF_FFFF
}

/// True if the bit pattern denotes a NaN.
pub open spec fn fb_is_nan(a: u32) -> bool {
    fb_mag(a) > 0x7F80_0000
}

/// An integer key that orders non-NaN bit patterns exactly as the
/// values they denote, with the two zeroes sharing the key 0.
pub open spec fn fb_key(a: u32) -> int {
    if a >= 0x8000_0000 {
        -(fb_mag(a) as int)
    } else {
        fb_mag(a) as int
    }
}

pub open spec fn fb_lt(a: u32, b: u32) -> bool {
    !fb_is_nan(a) && !fb_is_nan(b) && fb_key(a) < fb_key(b)
}

pub open spec fn fb_le(a: u32, b: u32) -> bool {
    !fb_is_nan(a) && !fb_is_nan(b) && fb_key(a) <= fb_key(b)
}

pub open spec fn fb_eq(a: u32, b: u32) -> bool {
    !fb_is_nan(a) && !fb_is_nan(b) && fb_key(a) == fb_key(b)
}

fn float_nan(a: u32) -> (r: bool)
    ensures
        r == fb_is_nan(a),
{
    (a & 0x7FFF_FFFF) > 0x7F80_0000
}

fn float_key(a: u32) -> (r: i64)
    ensures
        r == fb_key(a),
{
    proof {
        assert(a & 0x7FFF_FFFF <= 0x7FFF_FFFF) by (bit_vector);
    }
    let m = (a & 0x7FFF_FFFF) as i64;
    if a >= 0x8000_0000 {
        -m
    } else {
        m
    }
}

/// Strict order on single-precision values given as bits.
pub fn float_lt(a: u32, b: u32) -> (r: bool)
    ensures
        r == fb_lt(a, b),
{
    if float_nan(a) || float_nan(b) {
        false
    } else {
        float_key(a) < float_key(b)
    }
}

/// Non-strict order on single-precision values given as bits.
pub fn float_le(a: u32, b: u32) -> (r: bool)
    ensures
        r == fb_le(a, b),
{
    if float_nan(a) || float_nan(b) {
        false
    } else {
        float_key(a) <= float_key(b)
    }
}

/// Equality of single-precision values given as bits (IEEE equality:
/// NaN equals nothing, the two zeroes are equal).
pub fn float_eq(a: u32, b: u32) -> (r: bool)
    ensures
        r == fb_eq(a, b),
{
    if float_nan(a) || float_nan(b) {
        false
    } else {
        float_key(a) == float_key(b)
    }
}

/// True if every character in the range is a decimal digit.
pub open spec fn all_digits(s: Seq<char>) -> bool {
    forall|j: int| 0 <= j < s.len() ==> text::is_digit(#[trigger] s[j])
}

/// A mantissa: digits, optionally with one dot somewhere, and at
/// least one digit overall.
pub open spec fn is_mantissa(s: Seq<char>) -> bool {
    (s.len() > 0 && all_digits(s)) || (s.len() > 1 && exists|d: int|
        0 <= d < s.len() && #[trigger] s[d] == '.' && all_digits(s.subrange(0, d)) && all_digits(
            s.subrange(d + 1, s.len() as int),
        ))
}

/// An exponent part (after the `e`): an optional sign, then digits.
pub open spec fn is_exponent(s: Seq<char>) -> bool {
    {
        let body = if s.len() > 0 && (s[0] == '+' || s[0] == '-') {
            s.drop_first()
        } else {
            s
        };
        body.len() > 0 && all_digits(body)
    }
}

/// A decimal number without sign: mantissa, optionally followed by
/// `e`/`E` and an exponent.
pub open spec fn is_number_body(s: Seq<char>) -> bool {
    is_mantissa(s) || exists|e: int|
        0 <= e < s.len() && (#[trigger] s[e] == 'e' || s[e] == 'E') && is_mantissa(
            s.subrange(0, e),
        ) && is_exponent(s.subrange(e + 1, s.len() as int))
}

/// The text without its leading sign, if any.
pub open spec fn strip_sign(s: Seq<char>) -> Seq<char> {
    if s.len() > 0 && (s[0] == '+' || s[0] == '-') {
        s.drop_first()
    } else {
        s
    }
}

pub open spec fn has_minus(s: Seq<char>) -> bool {
    s.len() > 0 && s[0] == '-'
}

/// A full decimal literal: optional sign, then a number body.
pub open spec fn is_decimal_literal(s: Seq<char>) -> bool {
    is_number_body(strip_sign(s))
}

/// ASCII-lowercased character.
pub open spec fn lower_ascii(c: char) -> char {
    if 'A' <= c && c <= 'Z' {
        ((c as u8) + 32) as char
    } else {
        c
    }
}

/// Case-insensitive (ASCII) equality with a given word.
pub open spec fn eq_ignore_case(s: Seq<char>, w: Seq<char>) -> bool {
    s.len() == w.len() && forall|j: int| 0 <= j < s.len() ==> lower_ascii(#[trigger] s[j]) == w[j]
}

/// Bits of positive infinity.
pub open spec fn fb_inf() -> u32 {
    0x7F80_0000
}

/// Bits of the default quiet NaN.
pub open spec fn fb_nan() -> u32 {
    0x7FC0_0000
}

/// Bits with the sign applied.
pub open spec fn fb_signed(mag: u32, neg: bool) -> u32 {
    if neg {
        mag | 0x8000_0000
    } else {
        mag
    }
}

/// What the result of `rustc_apfloat`'s decimal-to-single conversion
/// is for a given text: a function of the text alone.
pub uninterp spec fn single_bits_of_decimal(s: Seq<char>) -> Option<u32>;

/// What the result of `rustc_apfloat`'s integer-to-single conversion
/// is for a given integer: a function of the integer alone.
pub uninterp spec fn single_bits_of_int(n: int) -> u32;

/// What `rustc_apfloat`'s decimal rendering of a single-precision bit
/// pattern is: a function of the bits alone.
pub uninterp spec fn single_text_of(b: u32) -> Seq<char>;

/// Relies on `rustc_apfloat::ieee::Single`'s `FromStr`: a correctly
/// rounded IEEE-754 binary32 conversion of a decimal literal, which
/// depends on the text alone; its source accepts, and returns a value
/// rather than an error for, every text of the form
/// `[+-]? (digits [. digits?]? | . digits) ([eE][+-]?digits)?`.
#[verifier::external_body]
fn single_from_decimal(s: &str) -> (r: Option<u32>)
    requires
        is_decimal_literal(s@),
    ensures
        r == single_bits_of_decimal(s@),
        r is Some,
{
    match s.parse::<rustc_apfloat::ieee::Single>() {
        Ok(x) => Some(x.to_bits() as u32),
        Err(_) => None,
    }
}

/// Relies on `rustc_apfloat::Float::from_i128`: the nearest binary32
/// value to the given integer, which depends on the integer alone.
#[verifier::external_body]
pub fn single_from_int(n: i32) -> (r: u32)
    ensures
        r == single_bits_of_int(n as int),
{
    let x = rustc_apfloat::ieee::Single::from_i128(n as i128).value;
    x.to_bits() as u32
}

/// Relies on `rustc_apfloat`'s `Display` for `Single`: a decimal
/// rendering that depends on the bits alone.
#[verifier::external_body]
pub fn single_display(b: u32) -> (r: String)
    ensures
        r@ == single_text_of(b),
{
    format!("{}", rustc_apfloat::ieee::Single::from_bits(b as u128))
}

/// The single-precision bits denoted by a piece of text, if it is a
/// floating-point literal: the special words `inf`, `infinity` and
/// `nan` (any ASCII case, optional sign) map to their well-known bit
/// patterns, and decimal literals are converted by `rustc_apfloat`.
pub open spec fn spec_float_bits_of_text(s: Seq<char>) -> Option<u32> {
    {
        let body = strip_sign(s);
        let neg = has_minus(s);
        if eq_ignore_case(body, "inf"@) || eq_ignore_case(body, "infinity"@) {
            Some(fb_signed(fb_inf(), neg))
        } else if eq_ignore_case(body, "nan"@) {
            Some(fb_signed(fb_nan(), neg))
        } else if is_number_body(body) {
            single_bits_of_decimal(s)
        } else {
            None
        }
    }
}

fn lower_char(c: char) -> (r: char)
    ensures
        r == lower_ascii(c),
{
    if 'A' <= c && c <= 'Z' {
        ((c as u8) + 32) as char
    } else {
        c
    }
}

/// Case-insensitive comparison of `s` (from `from` on) with a word.
fn eq_ci_from(s: &[char], from: usize, w: &[char]) -> (r: bool)
    requires
        from <= s@.len(),
    ensures
        r == eq_ignore_case(s@.subrange(from as int, s@.len() as int), w@),
{
    let ghost sub = s@.subrange(from as int, s@.len() as int);
    let n = s.len();
    if n - from != w.len() {
        return false;
    }
    let mut j: usize = 0;
    while j < w.len()
        invariant
            j <= w@.len(),
            n == s@.len(),
            from + w@.len() == s@.len(),
            sub == s@.subrange(from as int, s@.len() as int),
            forall|t: int| 0 <= t < j ==> lower_ascii(#[trigger] sub[t]) == w@[t],
        decreases w@.len() - j,
    {
        if lower_char(s[from + j]) != w[j] {
            proof {
                assert(sub[j as int] == s@[from + j]);
            }
            return false;
        }
        j += 1;
    }
    true
}

/// Checks the unsigned part of a literal for the decimal-number form,
/// scanning from `from`.
fn number_body_ok(s: &[char], from: usize) -> (r: bool)
    requires
        from <= s@.len(),
    ensures
        r == is_number_body(s@.subrange(from as int, s@.len() as int)),
{
    let ghost body = s@.subrange(from as int, s@.len() as int);
    let n = s.len();
    // find the first exponent marker, if any
    let mut e: usize = from;
    while e < n && s[e] != 'e' && s[e] != 'E'
        invariant
            from <= e <= n,
            n == s@.len(),
            forall|t: int| from <= t < e ==> s@[t] != 'e' && s@[t] != 'E',
        decreases n - e,
    {
        e += 1;
    }
    let mant_ok = mantissa_ok(s, from, e);
    proof {
        assert(body.subrange(0, e - from) =~= s@.subrange(from as int, e as int));
    }
    if e == n {
        proof {
            assert(body =~= s@.subrange(from as int, e as int));
            if is_number_body(body) && !is_mantissa(body) {
                let ex = choose|ex: int|
                    0 <= ex < body.len() && (#[trigger] body[ex] == 'e' || body[ex] == 'E')
                        && is_mantissa(body.subrange(0, ex)) && is_exponent(
                        body.subrange(ex + 1, body.len() as int),
                    );
                assert(s@[from + ex] != 'e' && s@[from + ex] != 'E');
            }
        }
        return mant_ok;
    }
    let exp_ok = exponent_ok(s, e + 1);
    proof {
        assert(body.subrange(e - from + 1, body.len() as int) =~= s@.subrange(
            e + 1 as int,
            n as int,
        ));
    }
    let r = mant_ok && exp_ok;
    proof {
        if r {
            assert(body[e - from] == s@[e as int]);
            assert(is_number_body(body));
        } else {
            // a mantissa cannot contain an exponent marker, so the
            // split at the first marker is the only candidate
            if is_mantissa(body) {
                assert(body[e - from] == s@[e as int]);
                if all_digits(body) {
                    assert(text::is_digit(body[e - from]));
                    assert(false);
                } else {
                    let d = choose|d: int|
                        0 <= d < body.len() && #[trigger] body[d] == '.' && all_digits(
                            body.subrange(0, d),
                        ) && all_digits(body.subrange(d + 1, body.len() as int));
                    if d < e - from {
                        assert(body.subrange(d + 1, body.len() as int)[e - from - d - 1]
                            == body[e - from]);
                        assert(text::is_digit(body[e - from]));
                    } else if d > e - from {
                        assert(body.subrange(0, d)[e - from] == body[e - from]);
                        assert(text::is_digit(body[e - from]));
                    }
                    assert(false);
                }
            }
            if is_number_body(body) {
                let ex = choose|ex: int|
                    0 <= ex < body.len() && (#[trigger] body[ex] == 'e' || body[ex] == 'E')
                        && is_mantissa(body.subrange(0, ex)) && is_exponent(
                        body.subrange(ex + 1, body.len() as int),
                    );
                if ex < e - from {
                    assert(s@[from + ex] != 'e' && s@[from + ex] != 'E');
                    assert(false);
                } else if ex > e - from {
                    // the mantissa before ex would contain the marker at e
                    let m = body.subrange(0, ex);
                    assert(m[e - from] == body[e - from]);
                    if all_digits(m) {
                        assert(text::is_digit(m[e - from]));
                        assert(false);
                    } else {
                        let d = choose|d: int|
                            0 <= d < m.len() && #[trigger] m[d] == '.' && all_digits(
                                m.subrange(0, d),
                            ) && all_digits(m.subrange(d + 1, m.len() as int));
                        if d < e - from {
                            assert(m.subrange(d + 1, m.len() as int)[e - from - d - 1]
                                == m[e - from]);
                            assert(text::is_digit(m[e - from]));
                        } else if d > e - from {
                            assert(m.subrange(0, d)[e - from] == m[e - from]);
                            assert(text::is_digit(m[e - from]));
                        }
                        assert(false);
                    }
                } else {
                    assert(false);
                }
            }
        }
    }
    r
}

/// Checks `s[from..to]` for the mantissa form.
fn mantissa_ok(s: &[char], from: usize, to: usize) -> (r: bool)
    requires
        from <= to <= s@.len(),
    ensures
        r == is_mantissa(s@.subrange(from as int, to as int)),
{
    let ghost m = s@.subrange(from as int, to as int);
    let mut saw_dot = false;
    let mut dot_at: usize = 0;
    let mut saw_digit = false;
    let mut bad = false;
    let mut i = from;
    while i < to
        invariant
            from <= i <= to <= s@.len(),
            m == s@.subrange(from as int, to as int),
            !bad ==> {
                &&& (saw_dot ==> from <= dot_at < i && m[dot_at - from] == '.')
                &&& forall|t: int|
                    0 <= t < i - from && (!saw_dot || t != dot_at - from) ==> text::is_digit(
                        #[trigger] m[t],
                    )
                &&& (saw_digit <==> exists|t: int|
                    0 <= t < i - from && text::is_digit(#[trigger] m[t]))
            },
            bad ==> !is_mantissa(m),
        decreases to - i,
    {
        let c = s[i];
        proof {
            assert(m[i - from] == s@[i as int]);
        }
        if text::digit_char(c) {
            saw_digit = true;
        } else if c == '.' {
            if saw_dot {
                proof {
                    if !bad {
                        lemma_two_dots_no_mantissa(m, dot_at - from, i - from);
                    }
                }
                bad = true;
            } else {
                saw_dot = true;
                dot_at = i;
            }
        } else {
            proof {
                if !bad {
                    lemma_bad_char_no_mantissa(m, i - from);
                }
            }
            bad = true;
        }
        i += 1;
    }
    if bad {
        return false;
    }
    let r = saw_digit;
    proof {
        if r {
            if saw_dot {
                assert(m.len() > 1);
                assert(all_digits(m.subrange(0, dot_at - from)));
                assert(all_digits(m.subrange(dot_at - from + 1, m.len() as int)));
                assert(is_mantissa(m));
            } else {
                assert(all_digits(m));
                assert(m.len() > 0);
            }
        } else {
            if is_mantissa(m) {
                if m.len() > 0 && all_digits(m) {
                    assert(text::is_digit(m[0]));
                } else {
                    let d = choose|d: int|
                        0 <= d < m.len() && #[trigger] m[d] == '.' && all_digits(
                            m.subrange(0, d),
                        ) && all_digits(m.subrange(d + 1, m.len() as int));
                    if d > 0 {
                        assert(m.subrange(0, d)[0] == m[0]);
                        assert(text::is_digit(m[0]));
                    } else {
                        assert(m.len() > 1);
                        assert(m.subrange(1, m.len() as int)[0] == m[1]);
                        assert(text::is_digit(m[1]));
                    }
                }
                assert(false);
            }
        }
    }
    r
}

proof fn lemma_two_dots_no_mantissa(m: Seq<char>, a: int, b: int)
    requires
        0 <= a < b < m.len(),
        m[a] == '.',
        m[b] == '.',
    ensures
        !is_mantissa(m),
{
    if is_mantissa(m) {
        if all_digits(m) {
            assert(text::is_digit(m[a]));
        } else {
            let d = choose|d: int|
                0 <= d < m.len() && #[trigger] m[d] == '.' && all_digits(m.subrange(0, d))
                    && all_digits(m.subrange(d + 1, m.len() as int));
            if a != d {
                if a < d {
                    assert(m.subrange(0, d)[a] == m[a]);
                } else {
                    assert(m.subrange(d + 1, m.len() as int)[a - d - 1] == m[a]);
                }
                assert(text::is_digit(m[a]));
            } else {
                if b < d {
                    assert(m.subrange(0, d)[b] == m[b]);
                } else {
                    assert(m.subrange(d + 1, m.len() as int)[b - d - 1] == m[b]);
                }
                assert(text::is_digit(m[b]));
            }
        }
        assert(false);
    }
}

proof fn lemma_bad_char_no_mantissa(m: Seq<char>, a: int)
    requires
        0 <= a < m.len(),
        !text::is_digit(m[a]),
        m[a] != '.',
    ensures
        !is_mantissa(m),
{
    if is_mantissa(m) {
        if all_digits(m) {
            assert(text::is_digit(m[a]));
        } else {
            let d = choose|d: int|
                0 <= d < m.len() && #[trigger] m[d] == '.' && all_digits(m.subrange(0, d))
                    && all_digits(m.subrange(d + 1, m.len() as int));
            if a < d {
                assert(m.subrange(0, d)[a] == m[a]);
            } else if a > d {
                assert(m.subrange(d + 1, m.len() as int)[a - d - 1] == m[a]);
            }
            assert(text::is_digit(m[a]) || m[a] == '.');
        }
        assert(false);
    }
}

/// Checks `s[from..]` for the exponent form.
#[verifier::loop_isolation(false)]
fn exponent_ok(s: &[char], from: usize) -> (r: bool)
    requires
        from <= s@.len(),
    ensures
        r == is_exponent(s@.subrange(from as int, s@.len() as int)),
{
    let ghost ex = s@.subrange(from as int, s@.len() as int);
    proof {
        if from < s@.len() {
            assert(ex[0] == s@[from as int]);
        }
    }
    let mut start = from;
    if from < s.len() && (s[from] == '+' || s[from] == '-') {
        start = from + 1;
        proof {
            assert(ex.drop_first() =~= s@.subrange(start as int, s@.len() as int));
        }
    } else {
        proof {
            assert(ex =~= s@.subrange(start as int, s@.len() as int));
        }
    }
    if start == s.len() {
        proof {
            assert(ex.len() == s@.len() - from);
            if ex.len() > 0 && (ex[0] == '+' || ex[0] == '-') {
                assert(start == from + 1);
                assert(ex.drop_first().len() == 0);
                assert(!is_exponent(ex));
            } else {
                assert(start == from);
                assert(ex.len() == 0);
                assert(!is_exponent(ex));
            }
        }
        return false;
    }
    let mut i = start;
    while i < s.len()
        invariant
            start <= i <= s@.len(),
            forall|t: int| start <= t < i ==> text::is_digit(#[trigger] s@[t]),
        decreases s@.len() - i,
    {
        if !text::digit_char(s[i]) {
            proof {
                let ghost body = s@.subrange(start as int, s@.len() as int);
                assert(body[i - start] == s@[i as int]);
            }
            return false;
        }
        i += 1;
    }
    proof {
        let ghost body = s@.subrange(start as int, s@.len() as int);
        assert forall|t: int| 0 <= t < body.len() implies text::is_digit(#[trigger] body[t]) by {
            assert(body[t] == s@[start + t]);
        }
        assert(body.len() > 0);
    }
    true
}

/// Converts a text to single-precision bits, as a floating-point
/// literal: `Some` exactly on literals, `None` otherwise.
pub fn float_bits_of_text(s: &str) -> (r: Option<u32>)
    ensures
        r == spec_float_bits_of_text(s@),
{
    let v = text::chars_of(s);
    let mut from: usize = 0;
    let mut neg = false;
    if v.len() > 0 && (v[0] == '+' || v[0] == '-') {
        from = 1;
        neg = v[0] == '-';
    }
    proof {
        if from == 1 {
            assert(s@.drop_first() =~= s@.subrange(1, s@.len() as int));
        } else {
            assert(s@ =~= s@.subrange(0, s@.len() as int));
        }
        assert(strip_sign(s@) == s@.subrange(from as int, s@.len() as int));
        assert(neg == has_minus(s@));
    }
    let inf_w: Vec<char> = text::chars_of("inf");
    let infinity_w: Vec<char> = text::chars_of("infinity");
    let nan_w: Vec<char> = text::chars_of("nan");
    proof {
        reveal_strlit("inf");
        reveal_strlit("infinity");
        reveal_strlit("nan");
    }
    if eq_ci_from(v.as_slice(), from, inf_w.as_slice()) || eq_ci_from(
        v.as_slice(),
        from,
        infinity_w.as_slice(),
    ) {
        return Some(if neg {
            0x7F80_0000u32 | 0x8000_0000u32
        } else {
            0x7F80_0000u32
        });
    }
    if eq_ci_from(v.as_slice(), from, nan_w.as_slice()) {
        return Some(if neg {
            0x7FC0_0000u32 | 0x8000_0000u32
        } else {
            0x7FC0_0000u32
        });
    }
    if number_body_ok(v.as_slice(), from) {
        let r = single_from_decimal(s);
        proof {
            assert(is_decimal_literal(s@));
        }
        r
    } else {
        None
    }
}

} // verus!
