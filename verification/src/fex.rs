//! A small filter-expression language: a single condition of the form
//! `key`, `key~value` (substring) or `key=value` (textual equality),
//! compiled into a node filter.

use vstd::prelude::*;
use crate::filter::{IndexFilter, IndexFilterV, KeyFilter, KeyFilterV, NodeFilter, NodeFilterV, ValueFilter, ValueFilterV};
use crate::memo::NodeType;
use crate::text;
use crate::text::{ScanClass, char_alphabetic, scan, scan_exec, is_alpha_char};

verus! {

/// What a filter expression compiles to: a key condition, optionally
/// joined with a substring (`~`) or equality (`=`) value condition.
pub open spec fn sp_fex(s: Seq<char>) -> Option<NodeFilterV> {
    if s.len() > 0 && char_alphabetic(s[0]) {
        let kend = scan(s, ScanClass::KeyChar, 1);
        let key = KeyFilterV::Equals(s.subrange(0, kend));
        if kend == s.len() {
            Some(
                NodeFilterV {
                    node_type: NodeType::Any,
                    key,
                    index: IndexFilterV::Any,
                    value: ValueFilterV::Any,
                },
            )
        } else if s[kend] == '~' && kend + 1 < s.len() {
            Some(
                NodeFilterV {
                    node_type: NodeType::Any,
                    key,
                    index: IndexFilterV::Any,
                    value: ValueFilterV::Contains(s.subrange(kend + 1, s.len() as int)),
                },
            )
        } else if s[kend] == '=' && kend + 1 < s.len() {
            Some(
                NodeFilterV {
                    node_type: NodeType::Any,
                    key,
                    index: IndexFilterV::Any,
                    value: ValueFilterV::Equals(s.subrange(kend + 1, s.len() as int)),
                },
            )
        } else {
            None
        }
    } else {
        None
    }
}

/// Recognizer type for the filter-expression grammar.
#[derive(Debug)]
pub struct FexParser;

impl FexParser {
    /// True if the whole text is a well-formed filter expression.
    pub fn fex_ok(input: &str) -> (r: bool)
        ensures
            r == (sp_fex(input@) is Some),
    {
        match parse_fex(input) {
            Ok(_) => true,
            Err(_) => false,
        }
    }
}

/// Compiles a filter expression into a node filter: a bare key
/// matches any node with that key; `key~v` requires the value to
/// contain `v`; `key=v` requires the rendered value to equal `v`.
pub fn parse_fex(input: &str) -> (r: Result<NodeFilter, ()>)
    ensures
        match r {
            Ok(nf) => sp_fex(input@) == Some(nf@),
            Err(_) => sp_fex(input@) is None,
        },
{
    let v = text::chars_of(input);
    if !(v.len() > 0 && is_alpha_char(v[0])) {
        return Err(());
    }
    let kend = scan_exec(v.as_slice(), ScanClass::KeyChar, 1);
    let key = KeyFilter::Equals(text::string_of_range(v.as_slice(), 0, kend));
    if kend == v.len() {
        return Ok(
            NodeFilter {
                node_type: NodeType::Any,
                key,
                index: IndexFilter::Any,
                value: ValueFilter::Any,
            },
        );
    }
    let op = v[kend];
    if (op == '~' || op == '=') && kend + 1 < v.len() {
        let operand = text::string_of_range(v.as_slice(), kend + 1, v.len());
        let value = if op == '~' {
            ValueFilter::Contains(operand)
        } else {
            ValueFilter::Equals(operand)
        };
        Ok(NodeFilter { node_type: NodeType::Any, key, index: IndexFilter::Any, value })
    } else {
        Err(())
    }
}

} // verus!
