//! A `Node` is a single piece of information: a key/value pair with
//! an optional list of attributes, themselves key/value pairs scoped
//! to the node.

use vstd::prelude::*;
use crate::value::{Key, Value, ValueV, value_eq_spec};

verus! {

/// Mathematical view of a node.
#[verifier::ext_equal]
pub struct NodeV {
    pub key: Seq<char>,
    pub value: ValueV,
    pub attrs: Seq<(Seq<char>, ValueV)>,
}

/// A key, a value, and attributes in insertion order with unique
/// keys (inserting an existing key replaces its value).
#[derive(Debug, Clone)]
pub struct Node {
    pub key: Key,
    pub value: Value,
    pub attrs: Vec<(Key, Value)>,
}

impl View for Node {
    type V = NodeV;

    open spec fn view(&self) -> NodeV {
        NodeV {
            key: self.key@,
            value: self.value@,
            attrs: self.attrs@.map_values(|p: (Key, Value)| (p.0@, p.1@)),
        }
    }
}

/// The position of a key in an attribute list, or -1 if absent.
pub open spec fn attr_index_of(attrs: Seq<(Seq<char>, ValueV)>, k: Seq<char>) -> int
    decreases attrs.len(),
{
    if attrs.len() == 0 {
        -1
    } else if attrs[0].0 == k {
        0
    } else {
        let r = attr_index_of(attrs.drop_first(), k);
        if r < 0 {
            -1
        } else {
            r + 1
        }
    }
}

/// The attribute list after setting `k` to `v`: the first entry with
/// key `k` is replaced, or the pair is appended if `k` is absent.
pub open spec fn spec_attr_set(
    attrs: Seq<(Seq<char>, ValueV)>,
    k: Seq<char>,
    v: ValueV,
) -> Seq<(Seq<char>, ValueV)> {
    let i = attr_index_of(attrs, k);
    if i >= 0 {
        attrs.update(i, (k, v))
    } else {
        attrs.push((k, v))
    }
}

/// Equality of attribute lists: same length, and pairwise equal keys
/// and values.
pub open spec fn attrs_eq_spec(
    x: Seq<(Seq<char>, ValueV)>,
    y: Seq<(Seq<char>, ValueV)>,
) -> bool {
    x.len() == y.len() && forall|i: int|
        0 <= i < x.len() ==> (#[trigger] x[i]).0 == y[i].0 && value_eq_spec(x[i].1, y[i].1)
}

/// Equality of nodes: key, value and attributes must all match.
pub open spec fn node_eq_spec(a: NodeV, b: NodeV) -> bool {
    a.key == b.key && value_eq_spec(a.value, b.value) && attrs_eq_spec(a.attrs, b.attrs)
}

pub proof fn lemma_attr_index_of_range(attrs: Seq<(Seq<char>, ValueV)>, k: Seq<char>)
    ensures
        -1 <= attr_index_of(attrs, k) < attrs.len(),
        attr_index_of(attrs, k) >= 0 ==> attrs[attr_index_of(attrs, k)].0 == k,
        attr_index_of(attrs, k) == -1 ==> forall|j: int|
            0 <= j < attrs.len() ==> (#[trigger] attrs[j]).0 != k,
        forall|j: int| 0 <= j < attr_index_of(attrs, k) ==> (#[trigger] attrs[j]).0 != k,
    decreases attrs.len(),
{
    if attrs.len() > 0 && attrs[0].0 != k {
        lemma_attr_index_of_range(attrs.drop_first(), k);
        assert forall|j: int| 0 <= j < attr_index_of(attrs, k) implies (#[trigger] attrs[j]).0
            != k by {
            if j > 0 {
                assert(attrs.drop_first()[j - 1] == attrs[j]);
            }
        }
        if attr_index_of(attrs, k) == -1 {
            assert forall|j: int| 0 <= j < attrs.len() implies (#[trigger] attrs[j]).0 != k by {
                if j > 0 {
                    assert(attrs.drop_first()[j - 1] == attrs[j]);
                }
            }
        }
    }
}

impl Node {
    /// A node with the given key and value and no attributes.
    pub fn new(key: &str, value: Value) -> (r: Node)
        ensures
            r@.key == key@,
            r@.value == value@,
            r@.attrs.len() == 0,
    {
        let r = Node { key: key.to_owned(), value, attrs: Vec::new() };
        proof {
            assert(r@.attrs =~= Seq::<(Seq<char>, ValueV)>::empty());
        }
        r
    }

    /// Sets the attribute `key` to `value`, replacing an existing
    /// entry with that key.
    #[verifier::loop_isolation(false)]
    pub fn set_attr(&mut self, key: &str, value: Value)
        ensures
            final(self)@.key == old(self)@.key,
            final(self)@.value == old(self)@.value,
            final(self)@.attrs == spec_attr_set(old(self)@.attrs, key@, value@),
    {
        proof {
            lemma_attr_index_of_range(self@.attrs, key@);
        }
        let ghost gi = attr_index_of(self@.attrs, key@);
        let mut i: usize = 0;
        while i < self.attrs.len()
            invariant
                *self == *old(self),
                i <= self@.attrs.len(),
                self@.attrs.len() == self.attrs@.len(),
                gi == attr_index_of(self@.attrs, key@),
                -1 <= gi < self@.attrs.len(),
                gi >= 0 ==> self@.attrs[gi].0 == key@,
                gi == -1 ==> forall|j: int|
                    0 <= j < self@.attrs.len() ==> (#[trigger] self@.attrs[j]).0 != key@,
                forall|j: int| 0 <= j < gi ==> (#[trigger] self@.attrs[j]).0 != key@,
                forall|j: int| 0 <= j < i ==> (#[trigger] self@.attrs[j]).0 != key@,
            decreases self@.attrs.len() - i,
        {
            let hit = {
                let pair = &self.attrs[i];
                compare_str_key(&pair.0, key)
            };
            if hit {
                proof {
                    assert(self@.attrs[i as int] == (self.attrs@[i as int].0@,
                    self.attrs@[i as int].1@));
                    assert(self@.attrs[i as int].0 == key@);
                    assert(gi == i);
                }
                let nk = key.to_owned();
                self.attrs.set(i, (nk, value));
                proof {
                    let na = self@.attrs;
                    let sa = spec_attr_set(old(self)@.attrs, key@, value@);
                    assert forall|j: int| 0 <= j < na.len() implies na[j] == sa[j] by {
                        assert(na[j] == (self.attrs@[j].0@, self.attrs@[j].1@));
                        if j != i {
                            assert(self.attrs@[j] == old(self).attrs@[j]);
                            assert(old(self)@.attrs[j] == (old(self).attrs@[j].0@,
                            old(self).attrs@[j].1@));
                        }
                    }
                    assert(na =~= sa);
                }
                return ;
            }
            i += 1;
        }
        proof {
            assert(gi == -1);
        }
        let nk = key.to_owned();
        self.attrs.push((nk, value));
        proof {
            let na = self@.attrs;
            let sa = spec_attr_set(old(self)@.attrs, key@, value@);
            assert forall|j: int| 0 <= j < na.len() implies na[j] == sa[j] by {
                assert(na[j] == (self.attrs@[j].0@, self.attrs@[j].1@));
                if j < na.len() - 1 {
                    assert(self.attrs@[j] == old(self).attrs@[j]);
                    assert(old(self)@.attrs[j] == (old(self).attrs@[j].0@,
                    old(self).attrs@[j].1@));
                }
            }
            assert(na =~= sa);
        }
    }

    /// Builder form of `set_attr`.
    pub fn with_attr(self, key: &str, value: Value) -> (r: Node)
        ensures
            r@.key == self@.key,
            r@.value == self@.value,
            r@.attrs == spec_attr_set(self@.attrs, key@, value@),
    {
        let mut n = self;
        n.set_attr(key, value);
        n
    }

    /// Replaces the whole attribute list.
    pub fn with_attrs(self, attrs: Vec<(Key, Value)>) -> (r: Node)
        ensures
            r@.key == self@.key,
            r@.value == self@.value,
            r@.attrs == attrs@.map_values(|p: (Key, Value)| (p.0@, p.1@)),
    {
        Node { key: self.key, value: self.value, attrs }
    }

    /// The value of the attribute with the given key, if present.
    #[verifier::loop_isolation(false)]
    pub fn get_attr(&self, key: &str) -> (r: Option<&Value>)
        ensures
            match r {
                Some(v) => {
                    let i = attr_index_of(self@.attrs, key@);
                    i >= 0 && v@ == self@.attrs[i].1
                },
                None => attr_index_of(self@.attrs, key@) == -1,
            },
    {
        proof {
            lemma_attr_index_of_range(self@.attrs, key@);
        }
        let ghost gi = attr_index_of(self@.attrs, key@);
        let mut i: usize = 0;
        while i < self.attrs.len()
            invariant
                i <= self@.attrs.len(),
                self@.attrs.len() == self.attrs@.len(),
                gi == attr_index_of(self@.attrs, key@),
                -1 <= gi < self@.attrs.len(),
                gi >= 0 ==> self@.attrs[gi].0 == key@,
                gi == -1 ==> forall|j: int|
                    0 <= j < self@.attrs.len() ==> (#[trigger] self@.attrs[j]).0 != key@,
                forall|j: int| 0 <= j < gi ==> (#[trigger] self@.attrs[j]).0 != key@,
                forall|j: int| 0 <= j < i ==> (#[trigger] self@.attrs[j]).0 != key@,
            decreases self@.attrs.len() - i,
        {
            let pair = &self.attrs[i];
            if compare_str_key(&pair.0, key) {
                proof {
                    assert(self@.attrs[i as int] == (self.attrs@[i as int].0@,
                    self.attrs@[i as int].1@));
                    assert(gi == i);
                }
                return Some(&self.attrs[i].1);
            }
            i += 1;
        }
        None
    }

    /// An equal node.
    #[verifier::loop_isolation(false)]
    pub fn duplicate(&self) -> (r: Node)
        ensures
            r@ == self@,
    {
        let mut attrs: Vec<(Key, Value)> = Vec::new();
        let mut i: usize = 0;
        while i < self.attrs.len()
            invariant
                i <= self.attrs@.len(),
                attrs@.len() == i,
                forall|j: int|
                    0 <= j < i ==> (#[trigger] attrs@[j]).0@ == self.attrs@[j].0@ && attrs@[j].1@
                        == self.attrs@[j].1@,
            decreases self.attrs@.len() - i,
        {
            let pair = &self.attrs[i];
            attrs.push((pair.0.clone(), pair.1.duplicate()));
            i += 1;
        }
        let r = Node { key: self.key.clone(), value: self.value.duplicate(), attrs };
        proof {
            assert(r@.attrs =~= self@.attrs);
        }
        r
    }
}

/// Equality between a stored key and a key given as `&str`.
fn compare_str_key(a: &String, b: &str) -> (r: bool)
    ensures
        r == (a@ == b@),
{
    let bs: String = b.to_owned();
    *a == bs
}

impl PartialEq for Node {
    #[verifier::loop_isolation(false)]
    fn eq(&self, other: &Self) -> (r: bool) {
        if !(self.key == other.key) {
            return false;
        }
        if !(self.value == other.value) {
            return false;
        }
        if self.attrs.len() != other.attrs.len() {
            return false;
        }
        let mut i: usize = 0;
        while i < self.attrs.len()
            invariant
                i <= self.attrs@.len(),
                self.attrs@.len() == other.attrs@.len(),
                forall|j: int|
                    0 <= j < i ==> (#[trigger] self@.attrs[j]).0 == other@.attrs[j].0
                        && value_eq_spec(self@.attrs[j].1, other@.attrs[j].1),
            decreases self.attrs@.len() - i,
        {
            proof {
                assert(self@.attrs[i as int] == (self.attrs@[i as int].0@,
                self.attrs@[i as int].1@));
                assert(other@.attrs[i as int] == (other.attrs@[i as int].0@,
                other.attrs@[i as int].1@));
            }
            let p = &self.attrs[i];
            let q = &other.attrs[i];
            if !(p.0 == q.0) {
                return false;
            }
            if !(p.1 == q.1) {
                return false;
            }
            i += 1;
        }
        true
    }
}

impl vstd::std_specs::cmp::PartialEqSpecImpl for Node {
    open spec fn obeys_eq_spec() -> bool {
        true
    }

    open spec fn eq_spec(&self, other: &Node) -> bool {
        node_eq_spec(self@, other@)
    }
}

} // verus!
