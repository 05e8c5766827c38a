//! The filter engine: predicates over node keys, values and
//! positions, combined into per-node filters, and record filters that
//! conjoin them.
//!
//! A `NodeFilter` matches a record when, among the nodes its scope
//! selects, at least one passes the key test, the position test
//! (counted after the key test re-bases positions from zero) and the
//! value test.  A `MemoFilter` matches a record when every one of its
//! node filters matches it.

use vstd::prelude::*;
use crate::memo::{Memo, NodeType};
use crate::node::NodeV;
use crate::single;
use crate::text;
use crate::value::{Key, Value, ValueV, spec_coerce, spec_render};

verus! {

/// Mathematical view of a key filter.
pub enum KeyFilterV {
    Any,
    Equals(Seq<char>),
    StartsWith(Seq<char>),
    StartsNotWith(Seq<char>),
    Not(Box<KeyFilterV>),
}

/// A predicate over node keys.
#[derive(Debug)]
pub enum KeyFilter {
    Any,
    Equals(String),
    StartsWith(String),
    StartsNotWith(String),
    Not(Box<KeyFilter>),
}

impl View for KeyFilter {
    type V = KeyFilterV;

    open spec fn view(&self) -> KeyFilterV
        decreases self,
    {
        match self {
            KeyFilter::Any => KeyFilterV::Any,
            KeyFilter::Equals(x) => KeyFilterV::Equals(x@),
            KeyFilter::StartsWith(x) => KeyFilterV::StartsWith(x@),
            KeyFilter::StartsNotWith(x) => KeyFilterV::StartsNotWith(x@),
            KeyFilter::Not(inner) => KeyFilterV::Not(Box::new((**inner)@)),
        }
    }
}

/// Whether a key passes a key filter.
pub open spec fn key_matches(kf: KeyFilterV, key: Seq<char>) -> bool
    decreases kf,
{
    match kf {
        KeyFilterV::Any => true,
        KeyFilterV::Equals(x) => key == x,
        KeyFilterV::StartsWith(x) => text::is_prefix(x, key),
        KeyFilterV::StartsNotWith(x) => !text::is_prefix(x, key),
        KeyFilterV::Not(inner) => !key_matches(*inner, key),
    }
}

impl KeyFilter {
    /// Whether the given key passes this filter.
    pub fn check(&self, key: &Key) -> (r: bool)
        ensures
            r == key_matches(self@, key@),
    {
        let cs = text::chars_of(key.as_str());
        self.check_chars(cs.as_slice())
    }

    fn check_chars(&self, key: &[char]) -> (r: bool)
        ensures
            r == key_matches(self@, key@),
        decreases *self,
    {
        match self {
            KeyFilter::Any => true,
            KeyFilter::Equals(x) => {
                let xs = text::chars_of(x.as_str());
                text::chars_eq(key, xs.as_slice())
            },
            KeyFilter::StartsWith(x) => {
                let xs = text::chars_of(x.as_str());
                text::starts_with_chars(key, xs.as_slice())
            },
            KeyFilter::StartsNotWith(x) => {
                let xs = text::chars_of(x.as_str());
                !text::starts_with_chars(key, xs.as_slice())
            },
            KeyFilter::Not(inner) => !inner.check_chars(key),
        }
    }

    /// An equal filter.
    pub fn duplicate(&self) -> (r: KeyFilter)
        ensures
            r@ == self@,
        decreases *self,
    {
        match self {
            KeyFilter::Any => KeyFilter::Any,
            KeyFilter::Equals(x) => KeyFilter::Equals(x.clone()),
            KeyFilter::StartsWith(x) => KeyFilter::StartsWith(x.clone()),
            KeyFilter::StartsNotWith(x) => KeyFilter::StartsNotWith(x.clone()),
            KeyFilter::Not(inner) => KeyFilter::Not(Box::new(inner.duplicate())),
        }
    }
}

impl PartialEq for KeyFilter {
    fn eq(&self, other: &Self) -> (r: bool)
        decreases *self,
    {
        match (self, other) {
            (KeyFilter::Any, KeyFilter::Any) => true,
            (KeyFilter::Equals(x), KeyFilter::Equals(y)) => *x == *y,
            (KeyFilter::StartsWith(x), KeyFilter::StartsWith(y)) => *x == *y,
            (KeyFilter::StartsNotWith(x), KeyFilter::StartsNotWith(y)) => *x == *y,
            (KeyFilter::Not(a), KeyFilter::Not(b)) => **a == **b,
            _ => false,
        }
    }
}

impl vstd::std_specs::cmp::PartialEqSpecImpl for KeyFilter {
    open spec fn obeys_eq_spec() -> bool {
        true
    }

    open spec fn eq_spec(&self, other: &KeyFilter) -> bool {
        self@ == other@
    }
}

/// A predicate over node positions (inclusive on both ends for
/// ranges).
#[derive(Debug, Clone, PartialEq, Eq, Structural)]
pub enum IndexFilter {
    Any,
    Single(usize),
    Range(usize, usize),
}

/// Mathematical view of an index filter.
pub enum IndexFilterV {
    Any,
    Single(int),
    Range(int, int),
}

impl View for IndexFilter {
    type V = IndexFilterV;

    open spec fn view(&self) -> IndexFilterV {
        match self {
            IndexFilter::Any => IndexFilterV::Any,
            IndexFilter::Single(n) => IndexFilterV::Single(*n as int),
            IndexFilter::Range(a, b) => IndexFilterV::Range(*a as int, *b as int),
        }
    }
}

/// Whether a position passes an index filter.
pub open spec fn index_matches(f: IndexFilterV, i: int) -> bool {
    match f {
        IndexFilterV::Any => true,
        IndexFilterV::Single(n) => i == n,
        IndexFilterV::Range(a, b) => a <= i && i <= b,
    }
}

impl IndexFilter {
    /// Whether the given position passes this filter.
    pub fn check(&self, index: usize) -> (r: bool)
        ensures
            r == index_matches(self@, index as int),
    {
        match self {
            IndexFilter::Any => true,
            IndexFilter::Single(n) => *n == index,
            IndexFilter::Range(a, b) => *a <= index && index <= *b,
        }
    }

    /// An equal filter.
    pub fn duplicate(&self) -> (r: IndexFilter)
        ensures
            r@ == self@,
    {
        match self {
            IndexFilter::Any => IndexFilter::Any,
            IndexFilter::Single(n) => IndexFilter::Single(*n),
            IndexFilter::Range(a, b) => IndexFilter::Range(*a, *b),
        }
    }
}

/// A predicate over node values.  The numeric variants hold their
/// operand as IEEE-754 single-precision bits and require the node's
/// value to coerce; a value that does not coerce never matches.
#[derive(Debug)]
pub enum ValueFilter {
    Any,
    Equals(String),
    Contains(String),
    LessThan(u32),
    MoreThan(u32),
    AtLeast(u32),
    AtMost(u32),
}

/// Mathematical view of a value filter.
pub enum ValueFilterV {
    Any,
    Equals(Seq<char>),
    Contains(Seq<char>),
    LessThan(u32),
    MoreThan(u32),
    AtLeast(u32),
    AtMost(u32),
}

impl View for ValueFilter {
    type V = ValueFilterV;

    open spec fn view(&self) -> ValueFilterV {
        match self {
            ValueFilter::Any => ValueFilterV::Any,
            ValueFilter::Equals(x) => ValueFilterV::Equals(x@),
            ValueFilter::Contains(x) => ValueFilterV::Contains(x@),
            ValueFilter::LessThan(x) => ValueFilterV::LessThan(*x),
            ValueFilter::MoreThan(x) => ValueFilterV::MoreThan(*x),
            ValueFilter::AtLeast(x) => ValueFilterV::AtLeast(*x),
            ValueFilter::AtMost(x) => ValueFilterV::AtMost(*x),
        }
    }
}

/// Whether a value passes a value filter.  `Equals` compares the
/// value's textual rendering; `Contains` is substring containment on
/// textual values only; the numeric comparisons hold exactly when the
/// value coerces to single-precision bits that compare as asked.
pub open spec fn value_matches(f: ValueFilterV, v: ValueV) -> bool {
    match f {
        ValueFilterV::Any => true,
        ValueFilterV::Equals(x) => spec_render(v) == x,
        ValueFilterV::Contains(x) => match v {
            ValueV::Text(t) => text::is_substring(x, t),
            ValueV::MultiLineText(t, _) => text::is_substring(x, t),
            _ => false,
        },
        ValueFilterV::LessThan(x) => match spec_coerce(v) {
            Some(b) => single::fb_lt(b, x),
            None => false,
        },
        ValueFilterV::MoreThan(x) => match spec_coerce(v) {
            Some(b) => single::fb_lt(x, b),
            None => false,
        },
        ValueFilterV::AtLeast(x) => match spec_coerce(v) {
            Some(b) => single::fb_le(x, b),
            None => false,
        },
        ValueFilterV::AtMost(x) => match spec_coerce(v) {
            Some(b) => single::fb_le(b, x),
            None => false,
        },
    }
}

impl ValueFilter {
    /// Whether the given value passes this filter.
    pub fn check(&self, value: &Value) -> (r: bool)
        ensures
            r == value_matches(self@, value@),
    {
        match self {
            ValueFilter::Any => true,
            ValueFilter::Equals(x) => {
                let rendered = value.to_text();
                rendered == *x
            },
            ValueFilter::Contains(x) => {
                match value {
                    Value::Text(t) => {
                        let ts = text::chars_of(t.as_str());
                        let xs = text::chars_of(x.as_str());
                        text::contains_chars(ts.as_slice(), xs.as_slice())
                    },
                    Value::MultiLineText(t, _) => {
                        let ts = text::chars_of(t.as_str());
                        let xs = text::chars_of(x.as_str());
                        text::contains_chars(ts.as_slice(), xs.as_slice())
                    },
                    _ => false,
                }
            },
            ValueFilter::LessThan(x) => {
                match value.to_float_bits() {
                    Some(b) => single::float_lt(b, *x),
                    None => false,
                }
            },
            ValueFilter::MoreThan(x) => {
                match value.to_float_bits() {
                    Some(b) => single::float_lt(*x, b),
                    None => false,
                }
            },
            ValueFilter::AtLeast(x) => {
                match value.to_float_bits() {
                    Some(b) => single::float_le(*x, b),
                    None => false,
                }
            },
            ValueFilter::AtMost(x) => {
                match value.to_float_bits() {
                    Some(b) => single::float_le(b, *x),
                    None => false,
                }
            },
        }
    }

    /// An equal filter.
    pub fn duplicate(&self) -> (r: ValueFilter)
        ensures
            r@ == self@,
    {
        match self {
            ValueFilter::Any => ValueFilter::Any,
            ValueFilter::Equals(x) => ValueFilter::Equals(x.clone()),
            ValueFilter::Contains(x) => ValueFilter::Contains(x.clone()),
            ValueFilter::LessThan(x) => ValueFilter::LessThan(*x),
            ValueFilter::MoreThan(x) => ValueFilter::MoreThan(*x),
            ValueFilter::AtLeast(x) => ValueFilter::AtLeast(*x),
            ValueFilter::AtMost(x) => ValueFilter::AtMost(*x),
        }
    }
}

impl PartialEq for ValueFilter {
    fn eq(&self, other: &Self) -> (r: bool) {
        match (self, other) {
            (ValueFilter::Any, ValueFilter::Any) => true,
            (ValueFilter::Equals(x), ValueFilter::Equals(y)) => *x == *y,
            (ValueFilter::Contains(x), ValueFilter::Contains(y)) => *x == *y,
            (ValueFilter::LessThan(x), ValueFilter::LessThan(y)) => *x == *y,
            (ValueFilter::MoreThan(x), ValueFilter::MoreThan(y)) => *x == *y,
            (ValueFilter::AtLeast(x), ValueFilter::AtLeast(y)) => *x == *y,
            (ValueFilter::AtMost(x), ValueFilter::AtMost(y)) => *x == *y,
            _ => false,
        }
    }
}

impl vstd::std_specs::cmp::PartialEqSpecImpl for ValueFilter {
    open spec fn obeys_eq_spec() -> bool {
        true
    }

    open spec fn eq_spec(&self, other: &ValueFilter) -> bool {
        self@ == other@
    }
}

/// Mathematical view of a node filter.
pub struct NodeFilterV {
    pub node_type: NodeType,
    pub key: KeyFilterV,
    pub index: IndexFilterV,
    pub value: ValueFilterV,
}

/// A per-node predicate: a scope, a key test, a position test
/// (applied after re-basing, see `rebased_index`) and a value test.
#[derive(Debug)]
pub struct NodeFilter {
    pub node_type: NodeType,
    pub key: KeyFilter,
    pub index: IndexFilter,
    pub value: ValueFilter,
}

impl View for NodeFilter {
    type V = NodeFilterV;

    open spec fn view(&self) -> NodeFilterV {
        NodeFilterV {
            node_type: self.node_type,
            key: self.key@,
            index: self.index@,
            value: self.value@,
        }
    }
}

/// Whether position `i` lies in the scope a node filter selects.
pub open spec fn in_scope(nt: NodeType, i: int, len: int) -> bool {
    0 <= i < len && match nt {
        NodeType::Header => i == 0,
        NodeType::Data => i >= 1,
        NodeType::Any => true,
    }
}

/// Whether the node at `i` is in scope and passes the key test.
pub open spec fn key_pass(m: Seq<NodeV>, nf: NodeFilterV, i: int) -> bool {
    in_scope(nf.node_type, i, m.len() as int) && key_matches(nf.key, m[i].key)
}

/// The position of node `i` among the nodes that pass the key test,
/// counted from zero: the number of earlier nodes that pass.
pub open spec fn rebased_index(m: Seq<NodeV>, nf: NodeFilterV, i: int) -> int
    decreases i,
{
    if i <= 0 {
        0
    } else {
        rebased_index(m, nf, i - 1) + if key_pass(m, nf, i - 1) {
            1int
        } else {
            0int
        }
    }
}

/// Whether the node at `i` survives the whole pipeline: scope, key
/// test, position test on the re-based position, and value test.
pub open spec fn node_selected(m: Seq<NodeV>, nf: NodeFilterV, i: int) -> bool {
    key_pass(m, nf, i) && index_matches(nf.index, rebased_index(m, nf, i)) && value_matches(
        nf.value,
        m[i].value,
    )
}

/// Whether a node filter matches a record: some node is selected.
pub open spec fn nf_matches(m: Seq<NodeV>, nf: NodeFilterV) -> bool {
    exists|i: int| #[trigger] node_selected(m, nf, i)
}

/// The selected original positions below `n`, in increasing order.
pub open spec fn selected_upto(m: Seq<NodeV>, nf: NodeFilterV, n: int) -> Seq<int>
    decreases n,
{
    if n <= 0 {
        Seq::empty()
    } else {
        let p = selected_upto(m, nf, n - 1);
        if node_selected(m, nf, n - 1) {
            p.push(n - 1)
        } else {
            p
        }
    }
}

/// All selected original positions of a record, in increasing order.
pub open spec fn spec_selected(m: Seq<NodeV>, nf: NodeFilterV) -> Seq<int> {
    selected_upto(m, nf, m.len() as int)
}

impl Default for NodeFilter {
    /// The identity filter: any scope, any key, any position, any
    /// value; it matches every record.
    fn default() -> (r: NodeFilter)
        ensures
            r@.node_type == NodeType::Any,
            r@.key == KeyFilterV::Any,
            r@.index == IndexFilterV::Any,
            r@.value == ValueFilterV::Any,
    {
        NodeFilter {
            node_type: NodeType::Any,
            key: KeyFilter::Any,
            index: IndexFilter::Any,
            value: ValueFilter::Any,
        }
    }
}

impl NodeFilter {
    /// Builder: replaces the scope.
    pub fn with_node_type(self, node_type: NodeType) -> (r: Self)
        ensures
            r@ == (NodeFilterV { node_type, ..self@ }),
    {
        NodeFilter { node_type, ..self }
    }

    /// Builder: replaces the key test.
    pub fn with_key(self, key: KeyFilter) -> (r: Self)
        ensures
            r@ == (NodeFilterV { key: key@, ..self@ }),
    {
        NodeFilter { key, ..self }
    }

    /// Builder: replaces the position test.
    pub fn with_index(self, index: IndexFilter) -> (r: Self)
        ensures
            r@ == (NodeFilterV { index: index@, ..self@ }),
    {
        NodeFilter { index, ..self }
    }

    /// Builder: replaces the value test.
    pub fn with_value(self, value: ValueFilter) -> (r: Self)
        ensures
            r@ == (NodeFilterV { value: value@, ..self@ }),
    {
        NodeFilter { value, ..self }
    }

    /// An equal filter.
    pub fn duplicate(&self) -> (r: NodeFilter)
        ensures
            r@ == self@,
    {
        NodeFilter {
            node_type: self.node_type,
            key: self.key.duplicate(),
            index: self.index.duplicate(),
            value: self.value.duplicate(),
        }
    }

    /// Whether the node at position `i` is in scope and passes the
    /// key test.
    fn key_passes(&self, memo: &Memo, i: usize) -> (r: bool)
        requires
            i < memo@.len(),
        ensures
            r == key_pass(memo@, self@, i as int),
    {
        let scoped = match self.node_type {
            NodeType::Header => i == 0,
            NodeType::Data => i >= 1,
            NodeType::Any => true,
        };
        if !scoped {
            return false;
        }
        let node = memo.node_at(i);
        self.key.check(&node.key)
    }

    /// The re-based position of node `i`: how many earlier nodes pass
    /// the key test.
    #[verifier::loop_isolation(false)]
    fn rebased_at(&self, memo: &Memo, i: usize) -> (r: usize)
        requires
            i < memo@.len(),
        ensures
            r == rebased_index(memo@, self@, i as int),
    {
        let mut count: usize = 0;
        let mut j: usize = 0;
        while j < i
            invariant
                j <= i < memo@.len(),
                count == rebased_index(memo@, self@, j as int),
                count <= j,
            decreases i - j,
        {
            if self.key_passes(memo, j) {
                count += 1;
            }
            j += 1;
        }
        count
    }

    /// Whether the node at position `i` survives the whole pipeline.
    fn selects(&self, memo: &Memo, i: usize) -> (r: bool)
        requires
            i < memo@.len(),
        ensures
            r == node_selected(memo@, self@, i as int),
    {
        if !self.key_passes(memo, i) {
            return false;
        }
        let rebased = self.rebased_at(memo, i);
        if !self.index.check(rebased) {
            return false;
        }
        let node = memo.node_at(i);
        self.value.check(&node.value)
    }

    /// The original positions of all nodes the filter selects, in
    /// increasing order.
    #[verifier::loop_isolation(false)]
    pub fn select_indices(&self, memo: &Memo) -> (r: Vec<usize>)
        ensures
            r@.map_values(|u: usize| u as int) == spec_selected(memo@, self@),
    {
        let d = memo.data_count();
        let mut r: Vec<usize> = Vec::new();
        proof {
            assert(r@.map_values(|u: usize| u as int) =~= selected_upto(memo@, self@, 0));
        }
        let mut i: usize = 0;
        loop
            invariant
                i <= d,
                d + 1 == memo@.len(),
                r@.map_values(|u: usize| u as int) == selected_upto(memo@, self@, i as int),
            decreases d - i,
        {
            let ghost pre = r@.map_values(|u: usize| u as int);
            if self.selects(memo, i) {
                r.push(i);
                proof {
                    assert(r@.map_values(|u: usize| u as int) =~= pre.push(i as int));
                }
            }
            if i == d {
                return r;
            }
            i += 1;
        }
    }

    /// Copies of the nodes the filter selects, in record order.
    #[verifier::loop_isolation(false)]
    pub fn select(&self, memo: &Memo) -> (r: Vec<crate::node::Node>)
        ensures
            r@.map_values(|n: crate::node::Node| n@) == spec_selected(memo@, self@).map_values(
                |i: int| memo@[i],
            ),
    {
        proof {
            lemma_selected_upto_bounds(memo@, self@, memo@.len() as int);
        }
        let indices = self.select_indices(memo);
        proof {
            assert forall|t: int|
                0 <= t < indices@.len() implies 0 <= #[trigger] indices@[t]
                < memo@.len() by {
                assert(indices@.map_values(|u: usize| u as int)[t] == indices@[t] as int);
                assert(0 <= spec_selected(memo@, self@)[t] < memo@.len());
            }
        }
        let mut r: Vec<crate::node::Node> = Vec::new();
        let mut k: usize = 0;
        while k < indices.len()
            invariant
                k <= indices@.len(),
                indices@.map_values(|u: usize| u as int) == spec_selected(memo@, self@),
                forall|t: int|
                    0 <= t < indices@.len() ==> 0 <= #[trigger] indices@[t] < memo@.len(),
                r@.len() == k,
                forall|t: int| 0 <= t < k ==> (#[trigger] r@[t])@ == memo@[indices@[t] as int],
            decreases indices@.len() - k,
        {
            proof {
                assert(indices@.map_values(|u: usize| u as int)[k as int] == indices@[k as int]);
            }
            let idx = indices[k];
            r.push(memo.node_at(idx).duplicate());
            k += 1;
        }
        proof {
            assert(r@.map_values(|n: crate::node::Node| n@) =~= spec_selected(
                memo@,
                self@,
            ).map_values(|i: int| memo@[i]));
        }
        r
    }

    /// Whether the filter matches the record: at least one node
    /// survives the pipeline.
    pub fn check_memo(&self, memo: &Memo) -> (r: bool)
        ensures
            r == nf_matches(memo@, self@),
    {
        let indices = self.select_indices(memo);
        proof {
            lemma_selected_upto_complete(memo@, self@, memo@.len() as int);
            lemma_selected_upto_bounds(memo@, self@, memo@.len() as int);
        }
        let r = indices.len() > 0;
        proof {
            let sel = spec_selected(memo@, self@);
            if r {
                assert(indices@.map_values(|u: usize| u as int)[0] == sel[0]);
                assert(node_selected(memo@, self@, sel[0]));
            } else {
                if nf_matches(memo@, self@) {
                    let i = choose|i: int| #[trigger] node_selected(memo@, self@, i);
                    assert(in_scope(self@.node_type, i, memo@.len() as int));
                    assert(sel.contains(i));
                }
            }
        }
        r
    }
}

/// Every position `selected_upto` lists is a selected position below
/// `n`, and the list is strictly increasing.
proof fn lemma_selected_upto_bounds(m: Seq<NodeV>, nf: NodeFilterV, n: int)
    ensures
        forall|t: int|
            0 <= t < selected_upto(m, nf, n).len() ==> 0 <= #[trigger] selected_upto(m, nf, n)[t]
                < n && node_selected(m, nf, selected_upto(m, nf, n)[t]),
        forall|t: int|
            0 <= t < selected_upto(m, nf, n).len() - 1 ==> #[trigger] selected_upto(m, nf, n)[t]
                < selected_upto(m, nf, n)[t + 1],
    decreases n,
{
    if n > 0 {
        lemma_selected_upto_bounds(m, nf, n - 1);
        let p = selected_upto(m, nf, n - 1);
        let s = selected_upto(m, nf, n);
        if node_selected(m, nf, n - 1) {
            assert(s == p.push(n - 1));
            assert forall|t: int|
                0 <= t < s.len() implies 0 <= #[trigger] s[t] < n && node_selected(
                m,
                nf,
                s[t],
            ) by {
                if t < p.len() {
                    assert(s[t] == p[t]);
                }
            }
            assert forall|t: int| 0 <= t < s.len() - 1 implies #[trigger] s[t] < s[t + 1] by {
                if t < p.len() - 1 {
                    assert(s[t] == p[t] && s[t + 1] == p[t + 1]);
                } else {
                    assert(s[t] == p[t] && s[t + 1] == n - 1);
                }
            }
        } else {
            assert(s == p);
        }
    }
}

/// Every selected position below `n` appears in `selected_upto`.
proof fn lemma_selected_upto_complete(m: Seq<NodeV>, nf: NodeFilterV, n: int)
    ensures
        forall|i: int| 0 <= i < n && node_selected(m, nf, i) ==> selected_upto(m, nf, n).contains(i),
    decreases n,
{
    if n > 0 {
        lemma_selected_upto_complete(m, nf, n - 1);
        assert forall|i: int| 0 <= i < n && node_selected(m, nf, i) implies selected_upto(
            m,
            nf,
            n,
        ).contains(i) by {
            if i < n - 1 {
                let p = selected_upto(m, nf, n - 1);
                let t = choose|t: int| 0 <= t < p.len() && p[t] == i;
                assert(selected_upto(m, nf, n)[t] == i);
            } else {
                let s = selected_upto(m, nf, n);
                assert(s[s.len() - 1] == i);
            }
        }
    }
}

/// A record filter: the conjunction of its node filters.
#[derive(Debug)]
pub struct MemoFilter {
    pub node_filters: Vec<NodeFilter>,
}

impl View for MemoFilter {
    type V = Seq<NodeFilterV>;

    open spec fn view(&self) -> Seq<NodeFilterV> {
        self.node_filters@.map_values(|nf: NodeFilter| nf@)
    }
}

/// Whether a record passes a record filter: every node filter must
/// match at least one node (a conjunction of existentials).
pub open spec fn mf_matches(m: Seq<NodeV>, fs: Seq<NodeFilterV>) -> bool {
    forall|k: int| 0 <= k < fs.len() ==> nf_matches(m, #[trigger] fs[k])
}

/// The positions some node filter of the list selects, below `n`, in
/// increasing order (the union of the per-filter selections).
pub open spec fn mf_selected_upto(m: Seq<NodeV>, fs: Seq<NodeFilterV>, n: int) -> Seq<int>
    decreases n,
{
    if n <= 0 {
        Seq::empty()
    } else {
        let p = mf_selected_upto(m, fs, n - 1);
        if exists|k: int| 0 <= k < fs.len() && node_selected(m, #[trigger] fs[k], n - 1) {
            p.push(n - 1)
        } else {
            p
        }
    }
}

/// All positions some node filter selects, in increasing order.
pub open spec fn spec_mf_selected(m: Seq<NodeV>, fs: Seq<NodeFilterV>) -> Seq<int> {
    mf_selected_upto(m, fs, m.len() as int)
}

impl MemoFilter {
    /// The empty conjunction: matches every record.
    pub fn new() -> (r: MemoFilter)
        ensures
            r@.len() == 0,
    {
        let r = MemoFilter { node_filters: Vec::new() };
        proof {
            assert(r@ =~= Seq::<NodeFilterV>::empty());
        }
        r
    }

    /// Appends a node filter, returning the filter (builder form).
    pub fn and(self, nf: NodeFilter) -> (r: MemoFilter)
        ensures
            r@ == self@.push(nf@),
    {
        let mut m = self;
        m.add(nf);
        m
    }

    /// Appends a node filter: the conjunction grows, so the filter
    /// only becomes more restrictive.
    pub fn add(&mut self, nf: NodeFilter)
        ensures
            final(self)@ == old(self)@.push(nf@),
    {
        self.node_filters.push(nf);
        proof {
            assert(self@ =~= old(self)@.push(nf@));
        }
    }

    /// Concatenates another filter's conditions onto this one: the
    /// result matches exactly the records both filters match.
    #[verifier::loop_isolation(false)]
    pub fn extend(&mut self, mf: MemoFilter)
        ensures
            final(self)@ == old(self)@ + mf@,
    {
        let mut k: usize = 0;
        let n = mf.node_filters.len();
        while k < n
            invariant
                k <= n == mf@.len(),
                self@ == old(self)@ + mf@.subrange(0, k as int),
            decreases n - k,
        {
            let ghost pre = self@;
            self.node_filters.push(mf.node_filters[k].duplicate());
            proof {
                assert(self@ =~= pre.push(mf@[k as int]));
                assert(self@ =~= old(self)@ + mf@.subrange(0, k + 1 as int));
            }
            k += 1;
        }
        proof {
            assert(mf@.subrange(0, mf@.len() as int) =~= mf@);
        }
    }

    /// Whether the record passes every node filter.
    #[verifier::loop_isolation(false)]
    pub fn check(&self, memo: &Memo) -> (r: bool)
        ensures
            r == mf_matches(memo@, self@),
    {
        let n = self.node_filters.len();
        let mut k: usize = 0;
        while k < n
            invariant
                k <= n == self@.len(),
                forall|t: int| 0 <= t < k ==> nf_matches(memo@, #[trigger] self@[t]),
            decreases n - k,
        {
            if !self.node_filters[k].check_memo(memo) {
                proof {
                    assert(!nf_matches(memo@, self@[k as int]));
                }
                return false;
            }
            k += 1;
        }
        true
    }

    /// The union of the positions each node filter selects, in
    /// increasing order.
    #[verifier::loop_isolation(false)]
    pub fn select_indices(&self, memo: &Memo) -> (r: Vec<usize>)
        ensures
            r@.map_values(|u: usize| u as int) == spec_mf_selected(memo@, self@),
    {
        let d = memo.data_count();
        let nfs = self.node_filters.len();
        let mut r: Vec<usize> = Vec::new();
        proof {
            assert(r@.map_values(|u: usize| u as int) =~= mf_selected_upto(memo@, self@, 0));
        }
        let mut i: usize = 0;
        loop
            invariant
                i <= d,
                d + 1 == memo@.len(),
                nfs == self@.len(),
                r@.map_values(|u: usize| u as int) == mf_selected_upto(memo@, self@, i as int),
            decreases d - i,
        {
            let ghost pre = r@.map_values(|u: usize| u as int);
            let mut hit = false;
            let mut k: usize = 0;
            while k < nfs
                invariant
                    k <= nfs == self@.len(),
                    i <= d,
                    d + 1 == memo@.len(),
                    hit == exists|t: int|
                        0 <= t < k && node_selected(memo@, #[trigger] self@[t], i as int),
                decreases nfs - k,
            {
                if self.node_filters[k].selects(memo, i) {
                    proof {
                        assert(node_selected(memo@, self@[k as int], i as int));
                    }
                    hit = true;
                }
                k += 1;
            }
            if hit {
                r.push(i);
                proof {
                    assert(r@.map_values(|u: usize| u as int) =~= pre.push(i as int));
                }
            }
            if i == d {
                return r;
            }
            i += 1;
        }
    }
}

impl MemoFilter {
    /// Counts the records that pass the filter and the nodes those
    /// records hold in all.  Counts saturate at the machine's word
    /// size (which the record list cannot reach in practice).
    #[verifier::loop_isolation(false)]
    pub fn stats(&self, memos: &Vec<crate::memo::Memo>) -> (r: (usize, usize))
        ensures
            ({
                let (c, n) = spec_filter_stats(
                    memos@.map_values(|m: crate::memo::Memo| m@),
                    self@,
                );
                (c <= usize::MAX && n <= usize::MAX) ==> r.0 == c && r.1 == n
            }),
    {
        let ghost gms = memos@.map_values(|m: crate::memo::Memo| m@);
        let mut c: usize = 0;
        let mut n: usize = 0;
        let mut k: usize = 0;
        proof {
            assert(gms.subrange(0, 0) =~= Seq::<Seq<NodeV>>::empty());
        }
        while k < memos.len()
            invariant
                k <= memos@.len(),
                gms == memos@.map_values(|m: crate::memo::Memo| m@),
                ({
                    let (sc, sn) = spec_filter_stats(gms.subrange(0, k as int), self@);
                    (sc <= usize::MAX && sn <= usize::MAX) ==> c == sc && n == sn
                }),
                c <= k,
                spec_filter_stats(gms.subrange(0, k as int), self@).0 >= c,
                spec_filter_stats(gms.subrange(0, k as int), self@).1 >= n,
            decreases memos@.len() - k,
        {
            proof {
                let s1 = gms.subrange(0, k + 1 as int);
                assert(s1.drop_last() =~= gms.subrange(0, k as int));
                assert(s1.last() == gms[k as int]);
                lemma_filter_stats_nonneg(gms.subrange(0, k as int), self@);
            }
            if self.check(&memos[k]) {
                if c < usize::MAX {
                    c += 1;
                }
                let count = memos[k].data_count();
                if count <= usize::MAX - 1 && n <= usize::MAX - 1 - count {
                    n = n + 1 + count;
                } else {
                    n = usize::MAX;
                }
            }
            k += 1;
        }
        proof {
            assert(gms.subrange(0, gms.len() as int) =~= gms);
        }
        (c, n)
    }
}

/// The statistics counters never go negative and only grow.
proof fn lemma_filter_stats_nonneg(ms: Seq<Seq<NodeV>>, fs: Seq<NodeFilterV>)
    ensures
        spec_filter_stats(ms, fs).0 >= 0,
        spec_filter_stats(ms, fs).1 >= 0,
    decreases ms.len(),
{
    if ms.len() > 0 {
        lemma_filter_stats_nonneg(ms.drop_last(), fs);
    }
}

/// Concatenating the condition lists of two record filters yields
/// their conjunction: the combined filter matches a record exactly
/// when both of the original filters match it.  Composition can only
/// restrict, never widen, the set of matching records.
pub proof fn lemma_extend_is_conjunction(m: Seq<NodeV>, a: Seq<NodeFilterV>, b: Seq<NodeFilterV>)
    ensures
        mf_matches(m, a + b) == (mf_matches(m, a) && mf_matches(m, b)),
{
    if mf_matches(m, a + b) {
        assert forall|k: int| 0 <= k < a.len() implies nf_matches(m, #[trigger] a[k]) by {
            assert((a + b)[k] == a[k]);
        }
        assert forall|k: int| 0 <= k < b.len() implies nf_matches(m, #[trigger] b[k]) by {
            assert((a + b)[a.len() + k] == b[k]);
        }
    }
    if mf_matches(m, a) && mf_matches(m, b) {
        assert forall|k: int| 0 <= k < (a + b).len() implies nf_matches(m, #[trigger] (a + b)[k]) by {
            if k < a.len() {
                assert((a + b)[k] == a[k]);
                assert(nf_matches(m, a[k]));
            } else {
                assert((a + b)[k] == b[k - a.len()]);
                assert(nf_matches(m, b[k - a.len()]));
            }
        }
    }
}

/// How many records of a list pass a filter, and how many nodes those
/// records hold in all (header included).
pub open spec fn spec_filter_stats(ms: Seq<Seq<NodeV>>, fs: Seq<NodeFilterV>) -> (int, int)
    decreases ms.len(),
{
    if ms.len() == 0 {
        (0, 0)
    } else {
        let (c, n) = spec_filter_stats(ms.drop_last(), fs);
        if mf_matches(ms.last(), fs) {
            (c + 1, n + ms.last().len())
        } else {
            (c, n)
        }
    }
}

/// A record filter is a conjunction of existentials: a record passes
/// a two-condition filter exactly when each condition is met by at
/// least one node; one matching condition alone is not enough.
pub proof fn lemma_check_is_and_of_exists(m: Seq<NodeV>, f1: NodeFilterV, f2: NodeFilterV)
    ensures
        mf_matches(m, seq![f1, f2]) == (nf_matches(m, f1) && nf_matches(m, f2)),
{
    let fs = seq![f1, f2];
    assert(fs[0] == f1);
    assert(fs[1] == f2);
    if nf_matches(m, f1) && nf_matches(m, f2) {
        assert forall|k: int| 0 <= k < fs.len() implies nf_matches(m, #[trigger] fs[k]) by {
            if k == 0 {
                assert(fs[k] == f1);
            } else {
                assert(fs[k] == f2);
            }
        }
    }
}

} // verus!
