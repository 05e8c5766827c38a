//! The query-language compiler ("MQL"): a comma-separated list of
//! conditions, each `[prefix] key [index] [operator value]`, compiled
//! into a `MemoFilter` that conjoins one `NodeFilter` per condition.
//!
//! - the prefix `@` scopes a condition to the header, `.` to the data
//!   nodes; without a prefix every node is in scope;
//! - a key starts with a letter, continued by letters, digits or `:`;
//! - an index `[n]` or `[n:m]` (inclusive) restricts which occurrence
//!   of the key matches, counted after the key test;
//! - the operators are `=` (textual equality), `~` (substring), and
//!   `<`, `<=`, `>`, `>=`, whose operand must be a floating-point
//!   literal; `=` and `~` take a bare word or a `'...'`-quoted text.

use vstd::prelude::*;
use crate::filter::{
    IndexFilter,
    IndexFilterV,
    KeyFilter,
    KeyFilterV,
    MemoFilter,
    NodeFilter,
    NodeFilterV,
    ValueFilter,
    ValueFilterV,
};
use crate::memo::NodeType;
use crate::single;
use crate::text;
use crate::text::{ScanClass, scan, scan_exec, in_class, is_alpha_char, class_char, char_alphabetic};

verus! {

/// The node filter and the next position a single condition denotes,
/// or `None` if no condition starts at `i`.
pub open spec fn sp_condition(s: Seq<char>, i: int) -> Option<(NodeFilterV, int)> {
    {
        let (nt, i1): (NodeType, int) = if i < s.len() && s[i] == '@' {
            (NodeType::Header, i + 1)
        } else if i < s.len() && s[i] == '.' {
            (NodeType::Data, i + 1)
        } else {
            (NodeType::Any, i)
        };
        if i1 < s.len() && char_alphabetic(s[i1]) {
            let kend = scan(s, ScanClass::KeyChar, i1 + 1);
            match sp_index(s, kend) {
                None => None,
                Some((ixf, i2)) => match sp_opval(s, i2) {
                    None => None,
                    Some((vf, i3)) => Some(
                        (
                            NodeFilterV {
                                node_type: nt,
                                key: KeyFilterV::Equals(s.subrange(i1, kend)),
                                index: ixf,
                                value: vf,
                            },
                            i3,
                        ),
                    ),
                },
            }
        } else {
            None
        }
    }
}

/// The index filter a condition carries at `i`: absent brackets mean
/// no restriction; malformed brackets or a position that does not fit
/// the machine's word size refuse the condition.
pub open spec fn sp_index(s: Seq<char>, i: int) -> Option<(IndexFilterV, int)> {
    if i < s.len() && s[i] == '[' {
        let d1 = scan(s, ScanClass::Digit, i + 1);
        if d1 == i + 1 {
            None
        } else if text::spec_digits_val(s.subrange(i + 1, d1)) > usize::MAX {
            None
        } else if d1 < s.len() && s[d1] == ']' {
            Some((IndexFilterV::Single(text::spec_digits_val(s.subrange(i + 1, d1))), d1 + 1))
        } else if d1 < s.len() && s[d1] == ':' {
            let d2 = scan(s, ScanClass::Digit, d1 + 1);
            if d2 == d1 + 1 {
                None
            } else if text::spec_digits_val(s.subrange(d1 + 1, d2)) > usize::MAX {
                None
            } else if d2 < s.len() && s[d2] == ']' {
                Some(
                    (
                        IndexFilterV::Range(
                            text::spec_digits_val(s.subrange(i + 1, d1)),
                            text::spec_digits_val(s.subrange(d1 + 1, d2)),
                        ),
                        d2 + 1,
                    ),
                )
            } else {
                None
            }
        } else {
            None
        }
    } else {
        Some((IndexFilterV::Any, i))
    }
}

/// The operand text and the next position, if a value starts at `i`:
/// either `'...'`-quoted (any characters but the quote) or a bare
/// word without spaces, commas or quotes.
pub open spec fn sp_value(s: Seq<char>, i: int) -> Option<(Seq<char>, int)> {
    if i < s.len() && s[i] == '\'' {
        let e = scan(s, ScanClass::NotQuote, i + 1);
        if e < s.len() {
            Some((s.subrange(i + 1, e), e + 1))
        } else {
            None
        }
    } else {
        let e = scan(s, ScanClass::Plain, i);
        if e == i {
            None
        } else {
            Some((s.subrange(i, e), e))
        }
    }
}

/// The value filter an optional `operator value` tail denotes at `i`.
/// Without an operator the value is unrestricted.  The numeric
/// operators refuse the condition when the operand is not a
/// floating-point literal.
pub open spec fn sp_opval(s: Seq<char>, i: int) -> Option<(ValueFilterV, int)> {
    {
        let j = scan(s, ScanClass::Space, i);
        if j < s.len() && (s[j] == '<' || s[j] == '>' || s[j] == '=' || s[j] == '~') {
            let eq_follows = j + 1 < s.len() && s[j + 1] == '=';
            let j2: int = if (s[j] == '<' || s[j] == '>') && eq_follows {
                j + 2
            } else {
                j + 1
            };
            let j3 = scan(s, ScanClass::Space, j2);
            match sp_value(s, j3) {
                None => None,
                Some((txt, j4)) => {
                    if s[j] == '=' {
                        Some((ValueFilterV::Equals(txt), j4))
                    } else if s[j] == '~' {
                        Some((ValueFilterV::Contains(txt), j4))
                    } else {
                        match single::spec_float_bits_of_text(txt) {
                            Some(b) => {
                                if s[j] == '<' && eq_follows {
                                    Some((ValueFilterV::AtMost(b), j4))
                                } else if s[j] == '<' {
                                    Some((ValueFilterV::LessThan(b), j4))
                                } else if eq_follows {
                                    Some((ValueFilterV::AtLeast(b), j4))
                                } else {
                                    Some((ValueFilterV::MoreThan(b), j4))
                                }
                            },
                            None => None,
                        }
                    }
                },
            }
        } else {
            Some((ValueFilterV::Any, i))
        }
    }
}

/// The condition list from `i` on: conditions separated by commas,
/// spaces tolerated, ending exactly at the end of the text.
pub open spec fn sp_conditions(s: Seq<char>, i: int, fuel: nat) -> Option<Seq<NodeFilterV>>
    decreases fuel,
{
    if fuel == 0 {
        None
    } else {
        match sp_condition(s, i) {
            None => None,
            Some((nf, j)) => {
                let j2 = scan(s, ScanClass::Space, j);
                if j2 == s.len() {
                    Some(seq![nf])
                } else if s[j2] == ',' {
                    let j3 = scan(s, ScanClass::Space, j2 + 1);
                    match sp_conditions(s, j3, (fuel - 1) as nat) {
                        None => None,
                        Some(rest) => Some(seq![nf] + rest),
                    }
                } else {
                    None
                }
            },
        }
    }
}

/// What a query string compiles to: its condition list, or nothing
/// when it is malformed.
pub open spec fn spec_parse_mql(s: Seq<char>) -> Option<Seq<NodeFilterV>> {
    sp_conditions(s, scan(s, ScanClass::Space, 0), (s.len() + 1) as nat)
}

fn parse_index(v: &[char], i: usize) -> (r: Option<(IndexFilter, usize)>)
    requires
        i <= v@.len(),
    ensures
        match r {
            Some((ixf, j)) => sp_index(v@, i as int) == Some((ixf@, j as int)) && i <= j
                <= v@.len(),
            None => sp_index(v@, i as int) is None,
        },
{
    if i < v.len() && v[i] == '[' {
        let d1 = scan_exec(v, ScanClass::Digit, i + 1);
        if d1 == i + 1 {
            return None;
        }
        let n1 = match text::parse_usize(v, i + 1, d1) {
            Some(n) => n,
            None => {
                return None;
            },
        };
        if d1 < v.len() && v[d1] == ']' {
            Some((IndexFilter::Single(n1), d1 + 1))
        } else if d1 < v.len() && v[d1] == ':' {
            let d2 = scan_exec(v, ScanClass::Digit, d1 + 1);
            if d2 == d1 + 1 {
                return None;
            }
            let n2 = match text::parse_usize(v, d1 + 1, d2) {
                Some(n) => n,
                None => {
                    return None;
                },
            };
            if d2 < v.len() && v[d2] == ']' {
                Some((IndexFilter::Range(n1, n2), d2 + 1))
            } else {
                None
            }
        } else {
            None
        }
    } else {
        Some((IndexFilter::Any, i))
    }
}

fn parse_value(v: &[char], i: usize) -> (r: Option<(String, usize)>)
    requires
        i <= v@.len(),
    ensures
        match r {
            Some((txt, j)) => sp_value(v@, i as int) == Some((txt@, j as int)) && i < j
                <= v@.len(),
            None => sp_value(v@, i as int) is None,
        },
{
    if i < v.len() && v[i] == '\'' {
        let e = scan_exec(v, ScanClass::NotQuote, i + 1);
        if e < v.len() {
            Some((text::string_of_range(v, i + 1, e), e + 1))
        } else {
            None
        }
    } else {
        let e = scan_exec(v, ScanClass::Plain, i);
        if e == i {
            None
        } else {
            Some((text::string_of_range(v, i, e), e))
        }
    }
}

fn parse_opval(v: &[char], i: usize) -> (r: Option<(ValueFilter, usize)>)
    requires
        i <= v@.len(),
    ensures
        match r {
            Some((vf, j)) => sp_opval(v@, i as int) == Some((vf@, j as int)) && i <= j <= v@.len(),
            None => sp_opval(v@, i as int) is None,
        },
{
    let j = scan_exec(v, ScanClass::Space, i);
    if j < v.len() && (v[j] == '<' || v[j] == '>' || v[j] == '=' || v[j] == '~') {
        let op = v[j];
        let eq_follows = j + 1 < v.len() && v[j + 1] == '=';
        let j2: usize = if (op == '<' || op == '>') && eq_follows {
            j + 2
        } else {
            j + 1
        };
        let j3 = scan_exec(v, ScanClass::Space, j2);
        let (txt, j4) = match parse_value(v, j3) {
            Some(p) => p,
            None => {
                return None;
            },
        };
        if op == '=' {
            Some((ValueFilter::Equals(txt), j4))
        } else if op == '~' {
            Some((ValueFilter::Contains(txt), j4))
        } else {
            match single::float_bits_of_text(txt.as_str()) {
                Some(b) => {
                    if op == '<' && eq_follows {
                        Some((ValueFilter::AtMost(b), j4))
                    } else if op == '<' {
                        Some((ValueFilter::LessThan(b), j4))
                    } else if eq_follows {
                        Some((ValueFilter::AtLeast(b), j4))
                    } else {
                        Some((ValueFilter::MoreThan(b), j4))
                    }
                },
                None => None,
            }
        }
    } else {
        Some((ValueFilter::Any, i))
    }
}

fn parse_condition(v: &[char], i: usize) -> (r: Option<(NodeFilter, usize)>)
    requires
        i <= v@.len(),
    ensures
        match r {
            Some((nf, j)) => sp_condition(v@, i as int) == Some((nf@, j as int)) && i < j
                <= v@.len(),
            None => sp_condition(v@, i as int) is None,
        },
{
    let (nt, i1): (NodeType, usize) = if i < v.len() && v[i] == '@' {
        (NodeType::Header, i + 1)
    } else if i < v.len() && v[i] == '.' {
        (NodeType::Data, i + 1)
    } else {
        (NodeType::Any, i)
    };
    if i1 < v.len() && is_alpha_char(v[i1]) {
        let kend = scan_exec(v, ScanClass::KeyChar, i1 + 1);
        let key = text::string_of_range(v, i1, kend);
        let (ixf, i2) = match parse_index(v, kend) {
            Some(p) => p,
            None => {
                return None;
            },
        };
        let (vf, i3) = match parse_opval(v, i2) {
            Some(p) => p,
            None => {
                return None;
            },
        };
        Some(
            (
                NodeFilter { node_type: nt, key: KeyFilter::Equals(key), index: ixf, value: vf },
                i3,
            ),
        )
    } else {
        None
    }
}

/// Compiles a query string into a record filter: `Ok` holds exactly
/// the condition list the grammar gives the string, and a malformed
/// string is refused; compilation never panics.
#[verifier::loop_isolation(false)]
pub fn parse_mql(input: &str) -> (r: Result<MemoFilter, &'static str>)
    ensures
        match r {
            Ok(mf) => spec_parse_mql(input@) == Some(mf@),
            Err(e) => spec_parse_mql(input@) is None && e@ == "unsuccessful parse"@,
        },
{
    let v = text::chars_of(input);
    let ghost s = input@;
    let n = v.len();
    let mut mf = MemoFilter::new();
    let mut i = scan_exec(v.as_slice(), ScanClass::Space, 0);
    let ghost fuel0 = (s.len() + 1) as nat;
    let ghost mut fuel = fuel0;
    proof {
        assert(mf@ =~= Seq::<NodeFilterV>::empty());
        assert(Some(mf@ + sp_conditions(s, i as int, fuel).unwrap()) == sp_conditions(
            s,
            i as int,
            fuel,
        ) || sp_conditions(s, i as int, fuel) is None);
    }
    loop
        invariant
            i <= n == s.len(),
            v@ == s,
            fuel >= s.len() - i + 1,
            spec_parse_mql(s) == match sp_conditions(s, i as int, fuel) {
                Some(rest) => Some(mf@ + rest),
                None => None::<Seq<NodeFilterV>>,
            },
        decreases fuel,
    {
        let (nf, j) = match parse_condition(v.as_slice(), i) {
            Some(p) => p,
            None => {
                proof {
                    assert(sp_conditions(s, i as int, fuel) is None);
                }
                return Err("unsuccessful parse");
            },
        };
        let ghost nfv = nf@;
        let j2 = scan_exec(v.as_slice(), ScanClass::Space, j);
        if j2 == n {
            let ghost pre = mf@;
            mf.add(nf);
            proof {
                assert(fuel > 0);
                assert(sp_conditions(s, i as int, fuel) == Some(seq![nfv]));
                assert(pre + seq![nfv] =~= pre.push(nfv));
            }
            return Ok(mf);
        }
        if v[j2] == ',' {
            let j3 = scan_exec(v.as_slice(), ScanClass::Space, j2 + 1);
            let ghost pre = mf@;
            mf.add(nf);
            proof {
                assert(fuel > 0);
                assert(sp_conditions(s, i as int, fuel) == match sp_conditions(
                    s,
                    j3 as int,
                    (fuel - 1) as nat,
                ) {
                    Some(rest) => Some(seq![nfv] + rest),
                    None => None::<Seq<NodeFilterV>>,
                });
                if sp_conditions(s, j3 as int, (fuel - 1) as nat) is Some {
                    let rest = sp_conditions(s, j3 as int, (fuel - 1) as nat).unwrap();
                    assert(pre + (seq![nfv] + rest) =~= (pre.push(nfv)) + rest);
                }
                fuel = (fuel - 1) as nat;
            }
            i = j3;
        } else {
            proof {
                assert(sp_conditions(s, i as int, fuel) is None);
            }
            return Err("unsuccessful parse");
        }
    }
}

/// Recognizers for the grammar's individual rules.
#[derive(Debug)]
pub struct MqlParser;

impl MqlParser {
    /// True if a key starts the text: its first character is a
    /// letter.
    pub fn key_ok(input: &str) -> (r: bool)
        ensures
            r == (input@.len() > 0 && char_alphabetic(input@[0])),
    {
        let v = text::chars_of(input);
        v.len() > 0 && is_alpha_char(v[0])
    }

    /// True if a bare operand starts the text.
    pub fn unquoted_value_ok(input: &str) -> (r: bool)
        ensures
            r == (input@.len() > 0 && in_class(ScanClass::Plain, input@[0])),
    {
        let v = text::chars_of(input);
        v.len() > 0 && class_char(&ScanClass::Plain, v[0])
    }

    /// True if a quoted operand starts the text: an opening quote
    /// with a closing quote somewhere after it.
    pub fn quoted_value_ok(input: &str) -> (r: bool)
        ensures
            r == (input@.len() > 0 && input@[0] == '\'' && scan(input@, ScanClass::NotQuote, 1)
                < input@.len()),
    {
        let v = text::chars_of(input);
        if v.len() > 0 && v[0] == '\'' {
            let e = scan_exec(v.as_slice(), ScanClass::NotQuote, 1);
            e < v.len()
        } else {
            false
        }
    }

    /// True if an operand (bare or quoted) starts the text.
    pub fn value_ok(input: &str) -> (r: bool)
        ensures
            r == (sp_value(input@, 0) is Some),
    {
        let v = text::chars_of(input);
        match parse_value(v.as_slice(), 0) {
            Some(_) => true,
            None => false,
        }
    }

    /// True if the text begins with a single-position index, `[n]`.
    pub fn index_single_ok(input: &str) -> (r: bool)
        ensures
            r == match sp_index(input@, 0) {
                Some((ixf, _)) => ixf is Single,
                None => false,
            },
    {
        let v = text::chars_of(input);
        match parse_index(v.as_slice(), 0) {
            Some((IndexFilter::Single(_), _)) => true,
            Some(_) => false,
            None => false,
        }
    }

    /// True if the text begins with a range index, `[n:m]`.
    pub fn index_range_ok(input: &str) -> (r: bool)
        ensures
            r == match sp_index(input@, 0) {
                Some((ixf, _)) => ixf is Range,
                None => false,
            },
    {
        let v = text::chars_of(input);
        match parse_index(v.as_slice(), 0) {
            Some((IndexFilter::Range(_, _), _)) => true,
            Some(_) => false,
            None => false,
        }
    }

    /// True if the whole text is a well-formed query.
    pub fn mql_ok(input: &str) -> (r: bool)
        ensures
            r == (spec_parse_mql(input@) is Some),
    {
        match parse_mql(input) {
            Ok(_) => true,
            Err(_) => false,
        }
    }
}

} // verus!
