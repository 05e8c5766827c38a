//! Character-level helpers shared by the record parser and the query
//! compiler: conversion between `String` and `Vec<char>`, trimming,
//! splitting, prefix and substring tests, and decimal digits.

use vstd::prelude::*;
use vstd::string::StrSliceExecFns;
use vstd::string::StringExecFns;

verus! {

/// Whitespace recognized when trimming values and separating tokens.
pub open spec fn is_ws(c: char) -> bool {
    c == ' ' || c == '\t' || c == '\r' || c == '\n'
}

pub fn ws_char(c: char) -> (r: bool)
    ensures
        r == is_ws(c),
{
    c == ' ' || c == '\t' || c == '\r' || c == '\n'
}

/// The characters of a string slice, in order.
pub fn chars_of(s: &str) -> (v: Vec<char>)
    ensures
        v@ == s@,
{
    let n = s.unicode_len();
    let mut v: Vec<char> = Vec::new();
    let mut i: usize = 0;
    while i < n
        invariant
            i <= n,
            n == s@.len(),
            v@ == s@.subrange(0, i as int),
        decreases n - i,
    {
        let c = s.get_char(i);
        v.push(c);
        proof {
            assert(v@ =~= s@.subrange(0, i + 1 as int));
        }
        i += 1;
    }
    proof {
        assert(v@ =~= s@);
    }
    v
}

/// Relies on String::push: appends the given character at the end.
#[verifier::external_body]
fn push_char(s: &mut String, c: char)
    ensures
        final(s)@ == old(s)@.push(c),
{
    s.push(c);
}

/// A string made of the given characters, in order.
pub fn string_of(v: &[char]) -> (s: String)
    ensures
        s@ == v@,
{
    let mut s = String::new();
    let mut i: usize = 0;
    while i < v.len()
        invariant
            i <= v@.len(),
            s@ == v@.subrange(0, i as int),
        decreases v@.len() - i,
    {
        push_char(&mut s, v[i]);
        proof {
            assert(s@ =~= v@.subrange(0, i + 1 as int));
        }
        i += 1;
    }
    proof {
        assert(s@ =~= v@);
    }
    s
}

/// A string made of a sub-range of the given characters.
pub fn string_of_range(v: &[char], from: usize, to: usize) -> (s: String)
    requires
        from <= to <= v@.len(),
    ensures
        s@ == v@.subrange(from as int, to as int),
{
    let sub = vstd::slice::slice_subrange(v, from, to);
    string_of(sub)
}

/// Number of leading whitespace characters.
pub open spec fn ws_prefix_len(s: Seq<char>) -> int
    decreases s.len(),
{
    if s.len() > 0 && is_ws(s[0]) {
        1 + ws_prefix_len(s.drop_first())
    } else {
        0
    }
}

proof fn lemma_ws_prefix_len_bounds(s: Seq<char>)
    ensures
        0 <= ws_prefix_len(s) <= s.len(),
        forall|j: int| 0 <= j < ws_prefix_len(s) ==> is_ws(s[j]),
        ws_prefix_len(s) < s.len() ==> !is_ws(s[ws_prefix_len(s)]),
    decreases s.len(),
{
    if s.len() > 0 && is_ws(s[0]) {
        lemma_ws_prefix_len_bounds(s.drop_first());
        assert forall|j: int| 0 <= j < ws_prefix_len(s) implies is_ws(s[j]) by {
            if j > 0 {
                assert(is_ws(s.drop_first()[j - 1]));
            }
        }
    }
}

/// Number of trailing whitespace characters.
pub open spec fn ws_suffix_len(s: Seq<char>) -> int
    decreases s.len(),
{
    if s.len() > 0 && is_ws(s[s.len() - 1]) {
        1 + ws_suffix_len(s.drop_last())
    } else {
        0
    }
}

proof fn lemma_ws_suffix_len_bounds(s: Seq<char>)
    ensures
        0 <= ws_suffix_len(s) <= s.len(),
        forall|j: int| s.len() - ws_suffix_len(s) <= j < s.len() ==> is_ws(s[j]),
        ws_suffix_len(s) < s.len() ==> !is_ws(s[s.len() - 1 - ws_suffix_len(s)]),
    decreases s.len(),
{
    if s.len() > 0 && is_ws(s[s.len() - 1]) {
        lemma_ws_suffix_len_bounds(s.drop_last());
        assert forall|j: int| s.len() - ws_suffix_len(s) <= j < s.len() implies is_ws(s[j]) by {
            if j < s.len() - 1 {
                assert(is_ws(s.drop_last()[j]));
            }
        }
    }
}

/// The string with leading and trailing whitespace removed.
pub open spec fn spec_trim(s: Seq<char>) -> Seq<char> {
    let a = ws_prefix_len(s);
    let b = s.len() - ws_suffix_len(s);
    if a <= b {
        s.subrange(a, b)
    } else {
        Seq::empty()
    }
}

/// Characters of `v` between `from` and `to`, with surrounding
/// whitespace removed.
pub fn trim_range(v: &[char], from: usize, to: usize) -> (r: Vec<char>)
    requires
        from <= to <= v@.len(),
    ensures
        r@ == spec_trim(v@.subrange(from as int, to as int)),
{
    let ghost s = v@.subrange(from as int, to as int);
    proof {
        lemma_ws_prefix_len_bounds(s);
        lemma_ws_suffix_len_bounds(s);
    }
    let mut a = from;
    while a < to && ws_char(v[a])
        invariant
            from <= a <= to <= v@.len(),
            s == v@.subrange(from as int, to as int),
            a - from <= ws_prefix_len(s),
            forall|j: int| 0 <= j < a - from ==> is_ws(s[j]),
        decreases to - a,
    {
        proof {
            lemma_ws_prefix_len_bounds(s);
            if a - from == ws_prefix_len(s) {
                assert(!is_ws(s[a - from]));
                assert(s[a - from] == v@[a as int]);
                assert(false);
            }
        }
        a += 1;
    }
    proof {
        lemma_ws_prefix_len_bounds(s);
        if a < to {
            assert(!is_ws(s[a - from]));
            assert(a - from >= ws_prefix_len(s));
        } else {
            assert(a == to);
            assert(ws_prefix_len(s) <= s.len());
        }
        assert(a - from == ws_prefix_len(s) || (a == to && ws_prefix_len(s) == s.len()));
    }
    let mut b = to;
    while b > a && ws_char(v[b - 1])
        invariant
            from <= a <= b <= to <= v@.len(),
            s == v@.subrange(from as int, to as int),
            to - b <= ws_suffix_len(s),
            forall|j: int| (b - from) <= j < s.len() ==> is_ws(s[j]),
        decreases b,
    {
        proof {
            lemma_ws_suffix_len_bounds(s);
            if to - b == ws_suffix_len(s) {
                assert(!is_ws(s[s.len() - 1 - (to - b)]));
                assert(s[(b - 1) - from] == v@[b - 1]);
                assert(false);
            }
        }
        b -= 1;
    }
    proof {
        lemma_ws_suffix_len_bounds(s);
        if b > a {
            assert(!is_ws(s[(b - 1) - from]));
            assert(to - b >= ws_suffix_len(s));
            assert(to - b == ws_suffix_len(s));
            assert(r_matches_trim(s, a - from, b - from));
        } else {
            assert(b == a);
            if a - from == ws_prefix_len(s) {
                assert(ws_prefix_len(s) >= s.len() - ws_suffix_len(s));
                assert(spec_trim(s) =~= s.subrange(a - from, a - from));
            } else {
                assert(ws_prefix_len(s) == s.len());
                assert(spec_trim(s) =~= s.subrange(a - from, a - from));
            }
        }
    }
    let mut r: Vec<char> = Vec::new();
    let mut i = a;
    while i < b
        invariant
            a <= i <= b <= to <= v@.len(),
            r@ == v@.subrange(a as int, i as int),
        decreases b - i,
    {
        r.push(v[i]);
        proof {
            assert(r@ =~= v@.subrange(a as int, i + 1 as int));
        }
        i += 1;
    }
    proof {
        assert(r@ =~= v@.subrange(a as int, b as int));
        assert(v@.subrange(a as int, b as int) =~= s.subrange(a - from, b - from));
    }
    r
}

/// The trimmed slice `s.subrange(lo, hi)` equals `spec_trim(s)` when
/// `lo` counts the leading and `len - hi` the trailing whitespace.
spec fn r_matches_trim(s: Seq<char>, lo: int, hi: int) -> bool {
    lo == ws_prefix_len(s) && s.len() - hi == ws_suffix_len(s) && lo <= hi
        ==> s.subrange(lo, hi) == spec_trim(s)
}

/// Whole-vector trim.
pub fn trim_chars(v: &[char]) -> (r: Vec<char>)
    ensures
        r@ == spec_trim(v@),
{
    let r = trim_range(v, 0, v.len());
    proof {
        assert(v@.subrange(0, v@.len() as int) =~= v@);
    }
    r
}

/// True if `p` is a prefix of `s`.
pub open spec fn is_prefix(p: Seq<char>, s: Seq<char>) -> bool {
    p.len() <= s.len() && s.subrange(0, p.len() as int) == p
}

/// Prefix test over char slices.
pub fn starts_with_chars(s: &[char], p: &[char]) -> (r: bool)
    ensures
        r == is_prefix(p@, s@),
{
    if p.len() > s.len() {
        proof {
            assert(!is_prefix(p@, s@));
        }
        return false;
    }
    let mut i: usize = 0;
    while i < p.len()
        invariant
            i <= p@.len() <= s@.len(),
            forall|j: int| 0 <= j < i ==> s@[j] == p@[j],
        decreases p@.len() - i,
    {
        if s[i] != p[i] {
            proof {
                assert(s@.subrange(0, p@.len() as int)[i as int] != p@[i as int]);
            }
            return false;
        }
        i += 1;
    }
    proof {
        assert(s@.subrange(0, p@.len() as int) =~= p@);
    }
    true
}

/// Equality of two char slices.
pub fn chars_eq(a: &[char], b: &[char]) -> (r: bool)
    ensures
        r == (a@ == b@),
{
    if a.len() != b.len() {
        return false;
    }
    let mut i: usize = 0;
    while i < a.len()
        invariant
            i <= a@.len(),
            a@.len() == b@.len(),
            forall|j: int| 0 <= j < i ==> a@[j] == b@[j],
        decreases a@.len() - i,
    {
        if a[i] != b[i] {
            return false;
        }
        i += 1;
    }
    proof {
        assert(a@ =~= b@);
    }
    true
}

/// True if `sub` occurs contiguously inside `s`.
pub open spec fn is_substring(sub: Seq<char>, s: Seq<char>) -> bool {
    exists|i: int|
        0 <= i <= s.len() - sub.len() && #[trigger] s.subrange(i, i + sub.len()) == sub
}

/// True if `sub` occurs at position `i` of `s`.
fn matches_at(s: &[char], sub: &[char], i: usize) -> (r: bool)
    requires
        i + sub@.len() <= s@.len(),
    ensures
        r == (s@.subrange(i as int, i + sub@.len()) == sub@),
{
    let slen = s.len();
    let mut j: usize = 0;
    while j < sub.len()
        invariant
            j <= sub@.len(),
            slen == s@.len(),
            i + sub@.len() <= s@.len(),
            forall|t: int| 0 <= t < j ==> s@[i + t] == sub@[t],
        decreases sub@.len() - j,
    {
        if s[i + j] != sub[j] {
            proof {
                assert(s@.subrange(i as int, i + sub@.len())[j as int] == s@[i + j]);
            }
            return false;
        }
        j += 1;
    }
    proof {
        assert(s@.subrange(i as int, i + sub@.len()) =~= sub@);
    }
    true
}

/// Substring search over char slices.
pub fn contains_chars(s: &[char], sub: &[char]) -> (r: bool)
    ensures
        r == is_substring(sub@, s@),
{
    if sub.len() > s.len() {
        proof {
            assert(!is_substring(sub@, s@));
        }
        return false;
    }
    let last = s.len() - sub.len();
    let mut i: usize = 0;
    loop
        invariant
            i <= last,
            last == s@.len() - sub@.len(),
            sub@.len() <= s@.len(),
            forall|k: int| 0 <= k < i ==> #[trigger] s@.subrange(k, k + sub@.len()) != sub@,
        decreases last - i,
    {
        if matches_at(s, sub, i) {
            return true;
        }
        if i == last {
            proof {
                assert forall|k: int| 0 <= k <= s@.len() - sub@.len() implies #[trigger] s@.subrange(
                    k,
                    k + sub@.len(),
                ) != sub@ by {}
            }
            return false;
        }
        i += 1;
    }
}

/// True if `c` is a decimal digit.
pub open spec fn is_digit(c: char) -> bool {
    '0' <= c && c <= '9'
}

pub fn digit_char(c: char) -> (r: bool)
    ensures
        r == is_digit(c),
{
    '0' <= c && c <= '9'
}

/// Numeric value of a decimal digit.
pub open spec fn digit_val(c: char) -> int {
    c as int - '0' as int
}

/// The number denoted by a digit string, most significant first.
pub open spec fn spec_digits_val(s: Seq<char>) -> int
    decreases s.len(),
{
    if s.len() == 0 {
        0
    } else {
        10 * spec_digits_val(s.drop_last()) + digit_val(s[s.len() - 1])
    }
}

/// Parses a non-empty all-digit string as a `usize`; `None` on overflow.
pub fn parse_usize(v: &[char], from: usize, to: usize) -> (r: Option<usize>)
    requires
        from <= to <= v@.len(),
        forall|j: int| from <= j < to ==> is_digit(v@[j]),
    ensures
        match r {
            Some(n) => n == spec_digits_val(v@.subrange(from as int, to as int)),
            None => spec_digits_val(v@.subrange(from as int, to as int)) > usize::MAX,
        },
{
    let ghost s = v@.subrange(from as int, to as int);
    let mut acc: usize = 0;
    let mut i = from;
    while i < to
        invariant
            from <= i <= to <= v@.len(),
            s == v@.subrange(from as int, to as int),
            forall|j: int| from <= j < to ==> is_digit(v@[j]),
            acc == spec_digits_val(s.subrange(0, i - from)),
        decreases to - i,
    {
        let c = v[i];
        proof {
            assert(s[i - from] == v@[i as int]);
            assert(is_digit(c));
            assert(s.subrange(0, i - from + 1).drop_last() =~= s.subrange(0, i - from));
            assert(s.subrange(0, i - from + 1)[i - from] == c);
        }
        let d = (c as u32 - '0' as u32) as usize;
        if acc > (usize::MAX - d) / 10 {
            proof {
                lemma_digits_val_mono(s, i - from + 1);
                vstd::arithmetic::div_mod::lemma_fundamental_div_mod(
                    (usize::MAX - d) as int,
                    10,
                );
            }
            return None;
        }
        acc = acc * 10 + d;
        i += 1;
    }
    proof {
        assert(s.subrange(0, s.len() as int) =~= s);
    }
    Some(acc)
}

/// A digit string's value only grows as more digits are taken.
proof fn lemma_digits_val_mono(s: Seq<char>, k: int)
    requires
        0 <= k <= s.len(),
        forall|j: int| 0 <= j < s.len() ==> is_digit(s[j]),
    ensures
        spec_digits_val(s) >= spec_digits_val(s.subrange(0, k)),
        spec_digits_val(s) >= 0,
    decreases s.len(),
{
    if s.len() == 0 {
    } else {
        lemma_digits_val_mono(s.drop_last(), if k <= s.len() - 1 { k } else { s.len() - 1 });
        if k <= s.len() - 1 {
            assert(s.drop_last().subrange(0, k) =~= s.subrange(0, k));
        } else {
            assert(s.subrange(0, k) =~= s);
        }
        assert(digit_val(s[s.len() - 1]) >= 0);
    }
}

/// What `char::is_alphabetic` returns: a function of the character
/// alone (the Unicode `Alphabetic` property).
pub uninterp spec fn char_alphabetic(c: char) -> bool;

/// What `char::is_alphanumeric` returns: a function of the character
/// alone (`Alphabetic` or a number character).
pub uninterp spec fn char_alphanumeric(c: char) -> bool;

/// Relies on char::is_alphabetic: the Unicode `Alphabetic` property,
/// a function of the character alone.
#[verifier::external_body]
pub fn is_alpha_char(c: char) -> (r: bool)
    ensures
        r == char_alphabetic(c),
{
    c.is_alphabetic()
}

/// Relies on char::is_alphanumeric: `Alphabetic` or a number
/// character, a function of the character alone.
#[verifier::external_body]
pub fn is_alnum_char(c: char) -> (r: bool)
    ensures
        r == char_alphanumeric(c),
{
    c.is_alphanumeric()
}

/// Character classes the compiler scans over.
pub enum ScanClass {
    /// A key continuation: letters, digits or `:`.
    KeyChar,
    /// Spaces and tabs between tokens.
    Space,
    /// A decimal digit.
    Digit,
    /// A character a bare (unquoted) operand may hold.
    Plain,
    /// Any character but the closing quote.
    NotQuote,
}

pub open spec fn in_class(cls: ScanClass, c: char) -> bool {
    match cls {
        ScanClass::KeyChar => char_alphanumeric(c) || c == ':',
        ScanClass::Space => is_ws(c),
        ScanClass::Digit => is_digit(c),
        ScanClass::Plain => !is_ws(c) && c != ',' && c != '\'',
        ScanClass::NotQuote => c != '\'',
    }
}

/// The first position at or after `i` whose character leaves the
/// class (or the end of the text).
pub open spec fn scan(s: Seq<char>, cls: ScanClass, i: int) -> int
    decreases s.len() - i when 0 <= i <= s.len()
{
    if i < s.len() && in_class(cls, s[i]) {
        scan(s, cls, i + 1)
    } else {
        i
    }
}

pub proof fn lemma_scan(s: Seq<char>, cls: ScanClass, i: int)
    requires
        0 <= i <= s.len(),
    ensures
        i <= scan(s, cls, i) <= s.len(),
        forall|j: int| i <= j < scan(s, cls, i) ==> in_class(cls, #[trigger] s[j]),
        scan(s, cls, i) < s.len() ==> !in_class(cls, s[scan(s, cls, i)]),
    decreases s.len() - i,
{
    if i < s.len() && in_class(cls, s[i]) {
        lemma_scan(s, cls, i + 1);
    }
}

pub fn class_char(cls: &ScanClass, c: char) -> (r: bool)
    ensures
        r == in_class(*cls, c),
{
    match cls {
        ScanClass::KeyChar => is_alnum_char(c) || c == ':',
        ScanClass::Space => ws_char(c),
        ScanClass::Digit => digit_char(c),
        ScanClass::Plain => !ws_char(c) && c != ',' && c != '\'',
        ScanClass::NotQuote => c != '\'',
    }
}

#[verifier::loop_isolation(false)]
pub fn scan_exec(v: &[char], cls: ScanClass, i: usize) -> (r: usize)
    requires
        i <= v@.len(),
    ensures
        r == scan(v@, cls, i as int),
        i <= r <= v@.len(),
        forall|j: int| i <= j < r ==> in_class(cls, #[trigger] v@[j]),
        r < v@.len() ==> !in_class(cls, v@[r as int]),
{
    proof {
        lemma_scan(v@, cls, i as int);
    }
    let mut p = i;
    while p < v.len() && class_char(&cls, v[p])
        invariant
            i <= p <= v@.len(),
            scan(v@, cls, i as int) == scan(v@, cls, p as int),
            forall|j: int| i <= j < p ==> in_class(cls, #[trigger] v@[j]),
        decreases v@.len() - p,
    {
        p += 1;
    }
    p
}



/// Segments of `s` between occurrences of `c`; always at least one
/// segment, possibly empty.
pub open spec fn split_on(s: Seq<char>, c: char) -> Seq<Seq<char>>
    decreases s.len(),
{
    if s.len() == 0 {
        seq![Seq::<char>::empty()]
    } else if s[0] == c {
        seq![Seq::<char>::empty()] + split_on(s.drop_first(), c)
    } else {
        let r = split_on(s.drop_first(), c);
        seq![seq![s[0]] + r[0]] + r.drop_first()
    }
}

pub proof fn lemma_split_on_len(s: Seq<char>, c: char)
    ensures
        split_on(s, c).len() >= 1,
    decreases s.len(),
{
    if s.len() > 0 {
        lemma_split_on_len(s.drop_first(), c);
    }
}

/// Unfolds `split_on` across the first separator-free prefix.
pub proof fn lemma_split_on_head(s: Seq<char>, c: char, p: int)
    requires
        0 <= p <= s.len(),
        forall|j: int| 0 <= j < p ==> s[j] != c,
    ensures
        p == s.len() ==> split_on(s, c) == seq![s],
        p < s.len() && s[p] == c ==> split_on(s, c) == seq![s.subrange(0, p)] + split_on(
            s.subrange(p + 1, s.len() as int),
            c,
        ),
    decreases s.len(),
{
    lemma_split_on_len(s, c);
    if p == 0 {
        if p == s.len() {
            assert(s =~= Seq::<char>::empty());
            assert(split_on(s, c) == seq![s]);
        } else if s[p] == c {
            assert(s.drop_first() =~= s.subrange(1, s.len() as int));
            assert(s.subrange(0, 0) =~= Seq::<char>::empty());
            assert(split_on(s, c) =~= seq![s.subrange(0, 0)] + split_on(
                s.subrange(1, s.len() as int),
                c,
            ));
        }
    } else {
        let d = s.drop_first();
        lemma_split_on_len(d, c);
        assert forall|j: int| 0 <= j < p - 1 implies d[j] != c by {
            assert(d[j] == s[j + 1]);
        }
        lemma_split_on_head(d, c, p - 1);
        let r = split_on(d, c);
        if p == s.len() {
            assert(r == seq![d]);
            assert(seq![s[0]] + r[0] =~= s);
            assert(split_on(s, c) =~= seq![s]);
        } else if s[p] == c {
            assert(d[p - 1] == s[p]);
            assert(r == seq![d.subrange(0, p - 1)] + split_on(d.subrange(p - 1 + 1, d.len() as int), c));
            assert(r[0] == d.subrange(0, p - 1));
            assert(seq![s[0]] + r[0] =~= s.subrange(0, p));
            assert(d.subrange(p, d.len() as int) =~= s.subrange(p + 1, s.len() as int));
            assert(r.drop_first() =~= split_on(s.subrange(p + 1, s.len() as int), c));
            assert(split_on(s, c) =~= seq![s.subrange(0, p)] + split_on(
                s.subrange(p + 1, s.len() as int),
                c,
            ));
        }
    }
}

/// The line with one trailing carriage return removed.
pub open spec fn strip_cr(l: Seq<char>) -> Seq<char> {
    if l.len() > 0 && l.last() == '\r' {
        l.drop_last()
    } else {
        l
    }
}

/// The lines of a text: split on newlines, each line with a trailing
/// carriage return removed.
pub open spec fn spec_lines(t: Seq<char>) -> Seq<Seq<char>> {
    split_on(t, '\n').map_values(|l: Seq<char>| strip_cr(l))
}

/// The parts joined with single newlines.
pub open spec fn join_nl(parts: Seq<Seq<char>>) -> Seq<char>
    decreases parts.len(),
{
    if parts.len() == 0 {
        Seq::empty()
    } else if parts.len() == 1 {
        parts[0]
    } else {
        join_nl(parts.drop_last()) + seq!['\n'] + parts.last()
    }
}

/// A copy of a sub-range of a char slice.
pub fn vec_of_range(v: &[char], from: usize, to: usize) -> (r: Vec<char>)
    requires
        from <= to <= v@.len(),
    ensures
        r@ == v@.subrange(from as int, to as int),
{
    let mut r: Vec<char> = Vec::new();
    let mut i = from;
    while i < to
        invariant
            from <= i <= to <= v@.len(),
            r@ == v@.subrange(from as int, i as int),
        decreases to - i,
    {
        r.push(v[i]);
        proof {
            assert(r@ =~= v@.subrange(from as int, i + 1 as int));
        }
        i += 1;
    }
    r
}

/// Splits a char slice on a separator character.
#[verifier::loop_isolation(false)]
pub fn split_chars(v: &[char], c: char) -> (r: Vec<Vec<char>>)
    ensures
        r@.map_values(|x: Vec<char>| x@) == split_on(v@, c),
{
    let n = v.len();
    let mut r: Vec<Vec<char>> = Vec::new();
    let mut i: usize = 0;
    proof {
        assert(v@.subrange(0, n as int) =~= v@);
        assert(r@.map_values(|x: Vec<char>| x@) =~= Seq::<Seq<char>>::empty());
    }
    loop
        invariant
            i <= n == v@.len(),
            split_on(v@, c) == r@.map_values(|x: Vec<char>| x@) + split_on(
                v@.subrange(i as int, n as int),
                c,
            ),
        decreases n - i,
    {
        let ghost suffix = v@.subrange(i as int, n as int);
        let mut p = i;
        while p < n && v[p] != c
            invariant
                i <= p <= n,
                forall|j: int| i <= j < p ==> v@[j] != c,
            decreases n - p,
        {
            p += 1;
        }
        proof {
            assert forall|j: int| 0 <= j < p - i implies suffix[j] != c by {
                assert(suffix[j] == v@[i + j]);
            }
            lemma_split_on_head(suffix, c, p - i);
        }
        let seg = vec_of_range(v, i, p);
        let ghost pre = r@.map_values(|x: Vec<char>| x@);
        r.push(seg);
        proof {
            assert(r@.map_values(|x: Vec<char>| x@) =~= pre.push(seg@));
            assert(seg@ =~= suffix.subrange(0, p - i));
        }
        if p == n {
            proof {
                assert(suffix =~= suffix.subrange(0, p - i));
                assert(split_on(suffix, c) == seq![suffix]);
                assert(pre + seq![suffix] =~= pre.push(seg@));
            }
            return r;
        }
        proof {
            assert(suffix[p - i] == v@[p as int]);
            assert(suffix.subrange(p - i + 1, suffix.len() as int) =~= v@.subrange(
                p + 1 as int,
                n as int,
            ));
            assert(pre + (seq![seg@] + split_on(v@.subrange(p + 1 as int, n as int), c)) =~= (
            pre.push(seg@)) + split_on(v@.subrange(p + 1 as int, n as int), c));
        }
        i = p + 1;
    }
}

/// The lines of a char slice.
#[verifier::loop_isolation(false)]
pub fn lines_of(v: &[char]) -> (r: Vec<Vec<char>>)
    ensures
        r@.map_values(|x: Vec<char>| x@) == spec_lines(v@),
{
    let raw = split_chars(v, '\n');
    let mut r: Vec<Vec<char>> = Vec::new();
    let mut k: usize = 0;
    proof {
        assert(r@.map_values(|x: Vec<char>| x@) =~= Seq::<Seq<char>>::empty());
    }
    while k < raw.len()
        invariant
            k <= raw@.len(),
            r@.len() == k,
            forall|t: int|
                0 <= t < k ==> (#[trigger] r@[t])@ == strip_cr(raw@.map_values(
                    |x: Vec<char>| x@,
                )[t]),
        decreases raw@.len() - k,
    {
        let line = &raw[k];
        let keep: usize = if line.len() > 0 && line[line.len() - 1] == '\r' {
            line.len() - 1
        } else {
            line.len()
        };
        let stripped = vec_of_range(line.as_slice(), 0, keep);
        proof {
            assert(stripped@ =~= strip_cr(line@));
        }
        r.push(stripped);
        k += 1;
    }
    proof {
        assert(r@.map_values(|x: Vec<char>| x@) =~= spec_lines(v@));
    }
    r
}

/// Joins parts with single newlines.
#[verifier::loop_isolation(false)]
pub fn join_nl_exec(parts: &Vec<Vec<char>>) -> (r: Vec<char>)
    ensures
        r@ == join_nl(parts@.map_values(|x: Vec<char>| x@)),
{
    let ghost ps = parts@.map_values(|x: Vec<char>| x@);
    let mut r: Vec<char> = Vec::new();
    let mut k: usize = 0;
    proof {
        assert(r@ =~= join_nl(ps.subrange(0, 0)));
    }
    while k < parts.len()
        invariant
            k <= parts@.len(),
            ps == parts@.map_values(|x: Vec<char>| x@),
            r@ == join_nl(ps.subrange(0, k as int)),
        decreases parts@.len() - k,
    {
        let ghost pre = r@;
        if k > 0 {
            r.push('\n');
        }
        let part = &parts[k];
        let mut t: usize = 0;
        while t < part.len()
            invariant
                t <= part@.len(),
                k < parts@.len(),
                ps == parts@.map_values(|x: Vec<char>| x@),
                part@ == ps[k as int],
                r@ == if k > 0 {
                    pre + seq!['\n'] + part@.subrange(0, t as int)
                } else {
                    pre + part@.subrange(0, t as int)
                },
            decreases part@.len() - t,
        {
            r.push(part[t]);
            proof {
                if k > 0 {
                    assert(r@ =~= pre + seq!['\n'] + part@.subrange(0, t + 1 as int));
                } else {
                    assert(r@ =~= pre + part@.subrange(0, t + 1 as int));
                }
            }
            t += 1;
        }
        proof {
            let upto = ps.subrange(0, k + 1 as int);
            assert(upto.drop_last() =~= ps.subrange(0, k as int));
            assert(upto.last() == ps[k as int]);
            assert(part@.subrange(0, part@.len() as int) =~= part@);
            if k > 0 {
                assert(r@ =~= join_nl(upto));
            } else {
                assert(r@ =~= part@);
                assert(join_nl(upto) == ps[0]);
            }
        }
        k += 1;
    }
    proof {
        assert(ps.subrange(0, ps.len() as int) =~= ps);
    }
    r
}

} // verus!

