//! A `Memo` is a record: an ordered list of nodes whose first entry,
//! the header, names the record's collection (the header key) and its
//! title (the header value, rendered as text).  Every further node is
//! a data node.

use vstd::prelude::*;
use crate::node::{Node, NodeV, node_eq_spec, spec_attr_set};
use crate::value::{Key, Value, spec_render, spec_value_of_text};
use crate::text;

verus! {

/// Record identifiers derived from the header.
pub type MemoId = u64;

/// Where a node stands in a record: the header slot, the data slots,
/// or anywhere.
#[derive(Debug, Copy, Clone, PartialEq, Eq, Structural)]
pub enum NodeType {
    Header,
    Data,
    Any,
}

/// A record: a header node followed by data nodes.  Its view is the
/// sequence of all node views, header first, so it always has length
/// at least one.
#[derive(Debug, Clone)]
pub struct Memo {
    header: Node,
    rest: Vec<Node>,
}

impl View for Memo {
    type V = Seq<NodeV>;

    closed spec fn view(&self) -> Seq<NodeV> {
        seq![self.header@] + self.rest@.map_values(|n: Node| n@)
    }
}

/// Equality of records: same node count, and every node pairwise
/// equal (key, value and attributes).
pub open spec fn memo_eq_spec(a: Seq<NodeV>, b: Seq<NodeV>) -> bool {
    a.len() == b.len() && forall|i: int| 0 <= i < a.len() ==> node_eq_spec(#[trigger] a[i], b[i])
}

/// One step of the FNV-1a hash.
pub open spec fn fnv_step(h: u64, x: u64) -> u64 {
    (((h ^ x) * 0x100_0000_01b3) % 0x1_0000_0000_0000_0000) as u64
}

/// FNV-1a over a character sequence.
pub open spec fn fnv_chars(h: u64, s: Seq<char>) -> u64
    decreases s.len(),
{
    if s.len() == 0 {
        h
    } else {
        fnv_chars(fnv_step(h, (s[0] as u32) as u64), s.drop_first())
    }
}

/// The identifier derived from a record's collection and title: an
/// FNV-1a hash of the two texts with a non-character separator.  Two
/// records with equal collection and title collide by design.
pub open spec fn memo_id_of(collection: Seq<char>, title: Seq<char>) -> u64 {
    fnv_chars(fnv_step(fnv_chars(0xcbf2_9ce4_8422_2325, collection), 0x11_0000), title)
}

fn fnv_step_exec(h: u64, x: u64) -> (r: u64)
    ensures
        r == fnv_step(h, x),
{
    let y = h ^ x;
    let p: u128 = (y as u128) * 0x100_0000_01b3u128;
    (p % 0x1_0000_0000_0000_0000u128) as u64
}

#[verifier::loop_isolation(false)]
fn fnv_chars_exec(h0: u64, s: &[char]) -> (r: u64)
    ensures
        r == fnv_chars(h0, s@),
{
    let mut h = h0;
    let mut i: usize = 0;
    proof {
        assert(s@.subrange(0, s@.len() as int) =~= s@);
    }
    while i < s.len()
        invariant
            i <= s@.len(),
            fnv_chars(h0, s@) == fnv_chars(h, s@.subrange(i as int, s@.len() as int)),
        decreases s@.len() - i,
    {
        let ghost pre = s@.subrange(i as int, s@.len() as int);
        let c = s[i];
        h = fnv_step_exec(h, (c as u32) as u64);
        proof {
            assert(pre[0] == s@[i as int]);
            assert(pre.drop_first() =~= s@.subrange(i + 1 as int, s@.len() as int));
        }
        i += 1;
    }
    proof {
        assert(s@.subrange(s@.len() as int, s@.len() as int) =~= Seq::<char>::empty());
    }
    h
}

impl Memo {
    /// A record with just its header node, built from a collection
    /// name and a title text.
    pub fn new(collection: &str, title: &str) -> (r: Memo)
        ensures
            r@.len() == 1,
            r@[0].key == collection@,
            r@[0].value == spec_value_of_text(title@),
            r@[0].attrs.len() == 0,
    {
        let r = Memo { header: Node::new(collection, Value::from_text(title)), rest: Vec::new() };
        proof {
            assert(r@ =~= seq![r.header@]);
        }
        r
    }

    /// A record built from a ready header node.
    pub fn from_header(header: Node) -> (r: Memo)
        ensures
            r@.len() == 1,
            r@[0] == header@,
    {
        let r = Memo { header, rest: Vec::new() };
        proof {
            assert(r@ =~= seq![r.header@]);
        }
        r
    }

    /// Appends a data node.
    pub fn push(&mut self, node: Node)
        ensures
            final(self)@ == old(self)@.push(node@),
    {
        self.rest.push(node);
        proof {
            assert(self@ =~= old(self)@.push(node@));
        }
    }

    /// Appends a data node, returning the record (builder form).
    pub fn with(self, node: Node) -> (r: Memo)
        ensures
            r@ == self@.push(node@),
    {
        let mut m = self;
        m.push(node);
        m
    }

    /// The node at the given position.
    pub fn node_at(&self, i: usize) -> (r: &Node)
        requires
            i < self@.len(),
        ensures
            r@ == self@[i as int],
    {
        proof {
            assert(self@.len() == 1 + self.rest@.len());
        }
        if i == 0 {
            &self.header
        } else {
            &self.rest[i - 1]
        }
    }

    /// Sets an attribute on the node at a given position.
    pub fn set_node_attr(&mut self, i: usize, key: &str, value: Value)
        requires
            i < old(self)@.len(),
        ensures
            final(self)@ == old(self)@.update(
                i as int,
                NodeV {
                    key: old(self)@[i as int].key,
                    value: old(self)@[i as int].value,
                    attrs: spec_attr_set(old(self)@[i as int].attrs, key@, value@),
                },
            ),
    {
        let ghost target = NodeV {
            key: old(self)@[i as int].key,
            value: old(self)@[i as int].value,
            attrs: spec_attr_set(old(self)@[i as int].attrs, key@, value@),
        };
        proof {
            assert(self@.len() == 1 + self.rest@.len());
        }
        if i == 0 {
            self.header.set_attr(key, value);
            proof {
                assert(self@ =~= old(self)@.update(0, target));
            }
        } else {
            let mut node = self.rest.remove(i - 1);
            node.set_attr(key, value);
            self.rest.insert(i - 1, node);
            proof {
                assert(self@ =~= old(self)@.update(i as int, target));
            }
        }
    }

    /// Sets an attribute on the last node.
    pub fn set_last_attr(&mut self, key: &str, value: Value)
        ensures
            final(self)@ == old(self)@.update(
                old(self)@.len() - 1,
                NodeV {
                    key: old(self)@.last().key,
                    value: old(self)@.last().value,
                    attrs: spec_attr_set(old(self)@.last().attrs, key@, value@),
                },
            ),
    {
        proof {
            assert(self@.len() == 1 + self.rest@.len());
        }
        let i = self.rest.len();
        self.set_node_attr(i, key, value);
    }

    /// Sets an attribute on the last node, returning the record
    /// (builder form).
    pub fn with_attr(self, key: &str, value: Value) -> (r: Memo)
        ensures
            r@ == self@.update(
                self@.len() - 1,
                NodeV {
                    key: self@.last().key,
                    value: self@.last().value,
                    attrs: spec_attr_set(self@.last().attrs, key@, value@),
                },
            ),
    {
        let mut m = self;
        m.set_last_attr(key, value);
        m
    }

    /// The header node.
    pub fn header(&self) -> (r: &Node)
        ensures
            self@.len() >= 1,
            r@ == self@[0],
    {
        proof {
            assert(self@.len() == 1 + self.rest@.len());
        }
        &self.header
    }

    /// The record's collection: the key of the header node.
    pub fn collection(&self) -> (r: Key)
        ensures
            self@.len() >= 1,
            r@ == self@[0].key,
    {
        self.header().key.clone()
    }

    /// The record's title: the header value rendered as text.
    pub fn title(&self) -> (r: String)
        ensures
            self@.len() >= 1,
            r@ == spec_render(self@[0].value),
    {
        self.header().value.to_text()
    }

    /// The record's identifier: a hash over collection and title, so
    /// records with equal collection and title collide by design.
    pub fn id(&self) -> (r: MemoId)
        ensures
            self@.len() >= 1,
            r == memo_id_of(self@[0].key, spec_render(self@[0].value)),
    {
        let collection = self.collection();
        let title = self.title();
        let cs = text::chars_of(collection.as_str());
        let ts = text::chars_of(title.as_str());
        let h = fnv_chars_exec(0xcbf2_9ce4_8422_2325, cs.as_slice());
        let h = fnv_step_exec(h, 0x11_0000);
        fnv_chars_exec(h, ts.as_slice())
    }

    /// Copies of all nodes, header first.
    pub fn nodes(&self) -> (r: Vec<Node>)
        ensures
            r@.map_values(|n: Node| n@) == self@,
            self@.len() >= 1,
    {
        self.nodes_range(NodeType::Any)
    }

    /// The data nodes (every node but the header).
    pub fn data(&self) -> (r: &[Node])
        ensures
            r@.map_values(|n: Node| n@) == self@.subrange(1, self@.len() as int),
            self@.len() >= 1,
    {
        proof {
            assert(self@.len() == 1 + self.rest@.len());
        }
        let r = self.rest.as_slice();
        proof {
            assert(r@.map_values(|n: Node| n@) =~= self@.subrange(1, self@.len() as int));
        }
        r
    }

    /// The number of data nodes.
    pub fn data_count(&self) -> (r: usize)
        ensures
            self@.len() >= 1,
            r == self@.len() - 1,
    {
        proof {
            assert(self@.len() == 1 + self.rest@.len());
        }
        self.rest.len()
    }

    /// The last node.
    pub fn last(&self) -> (r: &Node)
        ensures
            self@.len() >= 1,
            r@ == self@.last(),
    {
        proof {
            assert(self@.len() == 1 + self.rest@.len());
        }
        self.node_at(self.data_count())
    }

    /// Copies of the nodes a node-type scope selects: the header
    /// alone, the data nodes, or all nodes.
    pub fn node_iterator(&self, node_type: NodeType) -> (r: Vec<Node>)
        ensures
            self@.len() >= 1,
            r@.map_values(|n: Node| n@) == scope_of(self@, node_type),
    {
        self.nodes_range(node_type)
    }

    #[verifier::loop_isolation(false)]
    fn nodes_range(&self, node_type: NodeType) -> (r: Vec<Node>)
        ensures
            self@.len() >= 1,
            r@.map_values(|n: Node| n@) == scope_of(self@, node_type),
    {
        let d = self.data_count();
        let base: usize = match node_type {
            NodeType::Any => 0,
            NodeType::Data => 1,
            NodeType::Header => 0,
        };
        let top: usize = match node_type {
            NodeType::Any => d,
            NodeType::Data => d,
            NodeType::Header => 0,
        };
        let mut r: Vec<Node> = Vec::new();
        let mut i = base;
        if base <= top {
            loop
                invariant
                    base <= i <= top,
                    top < self@.len(),
                    r@.len() == i - base,
                    forall|j: int| 0 <= j < r@.len() ==> (#[trigger] r@[j])@ == self@[base + j],
                decreases top - i,
            {
                r.push(self.node_at(i).duplicate());
                if i == top {
                    break ;
                }
                i += 1;
            }
        }
        proof {
            assert(r@.map_values(|x: Node| x@) =~= scope_of(self@, node_type));
        }
        r
    }

    /// The nodes a scope selects, each with its original position.
    #[verifier::loop_isolation(false)]
    pub fn enumerate_nodes(&self, node_type: NodeType) -> (r: Vec<(usize, Node)>)
        ensures
            self@.len() >= 1,
            r@.len() == scope_of(self@, node_type).len(),
            forall|j: int|
                0 <= j < r@.len() ==> (#[trigger] r@[j]).0 == scope_base(node_type) + j
                    && r@[j].1@ == self@[scope_base(node_type) + j],
    {
        let d = self.data_count();
        let base: usize = match node_type {
            NodeType::Any => 0,
            NodeType::Data => 1,
            NodeType::Header => 0,
        };
        let top: usize = match node_type {
            NodeType::Any => d,
            NodeType::Data => d,
            NodeType::Header => 0,
        };
        let mut r: Vec<(usize, Node)> = Vec::new();
        let mut i = base;
        if base <= top {
            loop
                invariant
                    base <= i <= top,
                    top < self@.len(),
                    base == scope_base(node_type),
                    top + 1 == base + scope_of(self@, node_type).len(),
                    r@.len() == i - base,
                    forall|j: int|
                        0 <= j < r@.len() ==> (#[trigger] r@[j]).0 == base + j && r@[j].1@
                            == self@[base + j],
                decreases top - i,
            {
                r.push((i, self.node_at(i).duplicate()));
                if i == top {
                    break ;
                }
                i += 1;
            }
        }
        r
    }

    /// The first node (header or data) whose key matches, if any.
    #[verifier::loop_isolation(false)]
    pub fn get(&self, key: &str) -> (r: Option<&Node>)
        ensures
            match r {
                Some(n) => {
                    let i = node_index_of(self@, key@);
                    i >= 0 && n@ == self@[i]
                },
                None => node_index_of(self@, key@) == -1,
            },
    {
        proof {
            lemma_node_index_of_range(self@, key@);
        }
        let ghost gi = node_index_of(self@, key@);
        let d = self.data_count();
        let mut i: usize = 0;
        loop
            invariant
                i <= d,
                d + 1 == self@.len(),
                forall|j: int| 0 <= j < i ==> (#[trigger] self@[j]).key != key@,
            decreases d - i,
        {
            let node = self.node_at(i);
            if key_matches_str(&node.key, key) {
                proof {
                    assert(self@[i as int].key == key@);
                    assert(gi == i);
                }
                return Some(self.node_at(i));
            }
            if i == d {
                proof {
                    assert(forall|j: int|
                        0 <= j < self@.len() ==> (#[trigger] self@[j]).key != key@);
                }
                return None;
            }
            i += 1;
        }
    }

    /// The node at the given position, if any.
    pub fn get_by_index(&self, idx: usize) -> (r: Option<&Node>)
        ensures
            match r {
                Some(n) => idx < self@.len() && n@ == self@[idx as int],
                None => idx >= self@.len(),
            },
    {
        let d = self.data_count();
        if idx <= d {
            Some(self.node_at(idx))
        } else {
            None
        }
    }

    /// Copies of all nodes whose key matches, in order.
    #[verifier::loop_isolation(false)]
    pub fn get_vec(&self, key: &str) -> (r: Vec<Node>)
        ensures
            r@.map_values(|n: Node| n@) == nodes_with_key(self@, key@),
    {
        let d = self.data_count();
        let mut r: Vec<Node> = Vec::new();
        proof {
            assert(r@.map_values(|x: Node| x@) =~= nodes_with_key(self@.subrange(0, 0), key@));
        }
        let mut i: usize = 0;
        loop
            invariant
                i <= d,
                d + 1 == self@.len(),
                r@.map_values(|x: Node| x@) == nodes_with_key(self@.subrange(0, i as int), key@),
            decreases d - i,
        {
            let ghost pre = r@.map_values(|x: Node| x@);
            let node = self.node_at(i);
            if key_matches_str(&node.key, key) {
                r.push(node.duplicate());
                proof {
                    assert(r@.map_values(|x: Node| x@) =~= pre.push(self@[i as int]));
                }
            }
            proof {
                lemma_nodes_with_key_snoc(self@, i as int, key@);
                assert(self@.subrange(0, i as int).push(self@[i as int]) =~= self@.subrange(
                    0,
                    i + 1 as int,
                ));
            }
            if i == d {
                proof {
                    assert(self@.subrange(0, d + 1) =~= self@);
                }
                return r;
            }
            i += 1;
        }
    }

    /// True if some node (header or data) has the given key.
    pub fn contains_key(&self, key: &str) -> (r: bool)
        ensures
            r == exists|i: int| 0 <= i < self@.len() && (#[trigger] self@[i]).key == key@,
    {
        proof {
            lemma_node_index_of_range(self@, key@);
        }
        match self.get(key) {
            Some(_) => true,
            None => false,
        }
    }

    /// True if the record has no data nodes.
    pub fn is_empty(&self) -> (r: bool)
        ensures
            r == (self@.len() < 2),
    {
        proof {
            assert(self@.len() == 1 + self.rest@.len());
        }
        self.rest.len() == 0
    }

    /// An equal record.
    #[verifier::loop_isolation(false)]
    pub fn duplicate(&self) -> (r: Memo)
        ensures
            r@ == self@,
    {
        let mut rest: Vec<Node> = Vec::new();
        let mut i: usize = 0;
        while i < self.rest.len()
            invariant
                i <= self.rest@.len(),
                rest@.len() == i,
                forall|j: int| 0 <= j < i ==> (#[trigger] rest@[j])@ == self.rest@[j]@,
            decreases self.rest@.len() - i,
        {
            rest.push(self.rest[i].duplicate());
            i += 1;
        }
        let r = Memo { header: self.header.duplicate(), rest };
        proof {
            assert(r@ =~= self@);
        }
        r
    }
}

/// Round-trip construction: a record built from a header node and
/// then `n` data nodes (`new`, then `push` for each) has exactly `n`
/// data nodes — one fewer than its node count — and keeps header and
/// data in order.
pub proof fn lemma_round_trip_construction(header: NodeV, data: Seq<NodeV>)
    ensures
        (seq![header] + data).len() - 1 == data.len(),
        (seq![header] + data)[0] == header,
        forall|i: int| 0 <= i < data.len() ==> (seq![header] + data)[1 + i] == data[i],
{
}

/// The sub-sequence of a record a scope selects.
pub open spec fn scope_of(m: Seq<NodeV>, nt: NodeType) -> Seq<NodeV> {
    match nt {
        NodeType::Any => m,
        NodeType::Data => m.subrange(1, m.len() as int),
        NodeType::Header => m.subrange(0, 1),
    }
}

/// The original position of the first node in a scope.
pub open spec fn scope_base(nt: NodeType) -> int {
    match nt {
        NodeType::Data => 1,
        _ => 0,
    }
}

/// The position of the first node with the given key, or -1.
pub open spec fn node_index_of(m: Seq<NodeV>, k: Seq<char>) -> int
    decreases m.len(),
{
    if m.len() == 0 {
        -1
    } else if m[0].key == k {
        0
    } else {
        let r = node_index_of(m.drop_first(), k);
        if r < 0 {
            -1
        } else {
            r + 1
        }
    }
}

/// The nodes with the given key, in order.
pub open spec fn nodes_with_key(m: Seq<NodeV>, k: Seq<char>) -> Seq<NodeV>
    decreases m.len(),
{
    if m.len() == 0 {
        Seq::empty()
    } else {
        let rest = nodes_with_key(m.drop_last(), k);
        if m.last().key == k {
            rest.push(m.last())
        } else {
            rest
        }
    }
}

proof fn lemma_nodes_with_key_snoc(m: Seq<NodeV>, i: int, k: Seq<char>)
    requires
        0 <= i < m.len(),
    ensures
        nodes_with_key(m.subrange(0, i + 1), k) == if m[i].key == k {
            nodes_with_key(m.subrange(0, i), k).push(m[i])
        } else {
            nodes_with_key(m.subrange(0, i), k)
        },
{
    let s = m.subrange(0, i + 1);
    assert(s.drop_last() =~= m.subrange(0, i));
    assert(s.last() == m[i]);
}

proof fn lemma_node_index_of_range(m: Seq<NodeV>, k: Seq<char>)
    ensures
        -1 <= node_index_of(m, k) < m.len(),
        node_index_of(m, k) >= 0 ==> m[node_index_of(m, k)].key == k,
        node_index_of(m, k) == -1 ==> forall|j: int|
            0 <= j < m.len() ==> (#[trigger] m[j]).key != k,
        forall|j: int| 0 <= j < node_index_of(m, k) ==> (#[trigger] m[j]).key != k,
    decreases m.len(),
{
    if m.len() > 0 && m[0].key != k {
        lemma_node_index_of_range(m.drop_first(), k);
        assert forall|j: int| 0 <= j < node_index_of(m, k) implies (#[trigger] m[j]).key != k by {
            if j > 0 {
                assert(m.drop_first()[j - 1] == m[j]);
            }
        }
        if node_index_of(m, k) == -1 {
            assert forall|j: int| 0 <= j < m.len() implies (#[trigger] m[j]).key != k by {
                if j > 0 {
                    assert(m.drop_first()[j - 1] == m[j]);
                }
            }
        }
    }
}

/// Equality between a stored key and a key given as `&str`.
fn key_matches_str(a: &String, b: &str) -> (r: bool)
    ensures
        r == (a@ == b@),
{
    let bs: String = b.to_owned();
    *a == bs
}

impl PartialEq for Memo {
    #[verifier::loop_isolation(false)]
    fn eq(&self, other: &Self) -> (r: bool) {
        let d = self.data_count();
        if d != other.data_count() {
            return false;
        }
        let mut i: usize = 0;
        loop
            invariant
                i <= d,
                d + 1 == self@.len(),
                self@.len() == other@.len(),
                forall|j: int| 0 <= j < i ==> node_eq_spec(#[trigger] self@[j], other@[j]),
            decreases d - i,
        {
            if !(*self.node_at(i) == *other.node_at(i)) {
                return false;
            }
            if i == d {
                return true;
            }
            i += 1;
        }
    }
}

impl vstd::std_specs::cmp::PartialEqSpecImpl for Memo {
    open spec fn obeys_eq_spec() -> bool {
        true
    }

    open spec fn eq_spec(&self, other: &Memo) -> bool {
        memo_eq_spec(self@, other@)
    }
}

} // verus!
