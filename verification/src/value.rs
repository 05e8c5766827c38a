//! A `Value` is the payload of a node: single-line text, multi-line
//! text (with the delimiter token that closed it in the source),
//! a 32-bit integer, a single-precision number (held as its IEEE-754
//! bit pattern), or a boolean.

use vstd::prelude::*;
use vstd::string::StringExecFns;
use crate::single;
use crate::text;

verus! {

/// Node keys are plain strings.
pub type Key = String;

/// Mathematical view of a `Value`.
#[verifier::ext_equal]
pub enum ValueV {
    Text(Seq<char>),
    MultiLineText(Seq<char>, Seq<char>),
    Integer(int),
    Float(u32),
    Bool(bool),
}

/// A tagged union of the value kinds a node can hold.  `Float` holds
/// the IEEE-754 single-precision bit pattern of its value.
#[derive(Debug, Clone)]
pub enum Value {
    Text(String),
    MultiLineText(String, String),
    Integer(i32),
    Float(u32),
    Bool(bool),
}

impl View for Value {
    type V = ValueV;

    open spec fn view(&self) -> ValueV {
        match self {
            Value::Text(t) => ValueV::Text(t@),
            Value::MultiLineText(t, sep) => ValueV::MultiLineText(t@, sep@),
            Value::Integer(n) => ValueV::Integer(*n as int),
            Value::Float(b) => ValueV::Float(*b),
            Value::Bool(b) => ValueV::Bool(*b),
        }
    }
}

/// The value a piece of text denotes: multi-line text (closed by the
/// default token `EOF`) when it holds a newline, single-line text
/// otherwise.
pub open spec fn spec_value_of_text(t: Seq<char>) -> ValueV {
    if t.contains('\n') {
        ValueV::MultiLineText(t, "EOF"@)
    } else {
        ValueV::Text(t)
    }
}

/// Structural equality of values: the kind and the content must both
/// match; numbers of different kinds never compare equal.  `Float`
/// values compare by IEEE equality of their bit patterns.
pub open spec fn value_eq_spec(a: ValueV, b: ValueV) -> bool {
    match (a, b) {
        (ValueV::Text(x), ValueV::Text(y)) => x == y,
        (ValueV::MultiLineText(x, sx), ValueV::MultiLineText(y, sy)) => x == y && sx == sy,
        (ValueV::Integer(x), ValueV::Integer(y)) => x == y,
        (ValueV::Float(x), ValueV::Float(y)) => single::fb_eq(x, y),
        (ValueV::Bool(x), ValueV::Bool(y)) => x == y,
        _ => false,
    }
}

/// Decimal rendering of a non-negative integer.
pub open spec fn spec_nat_text(n: int) -> Seq<char>
    decreases n,
{
    if n <= 9 {
        seq![((48 + if n < 0 { 0 } else { n }) as u8) as char]
    } else {
        spec_nat_text(n / 10).push(((48 + n % 10) as u8) as char)
    }
}

/// Decimal rendering of an integer.
pub open spec fn spec_int_text(n: int) -> Seq<char> {
    if n < 0 {
        seq!['-'] + spec_nat_text(-n)
    } else {
        spec_nat_text(n)
    }
}

/// The textual rendering of a value: text renders as itself,
/// multi-line text as `<<SEP\ntext\nSEP`, numbers and booleans in
/// their natural decimal or word form.
pub open spec fn spec_render(v: ValueV) -> Seq<char> {
    match v {
        ValueV::Text(t) => t,
        ValueV::MultiLineText(t, sep) => "<<"@ + sep + "\n"@ + t + "\n"@ + sep,
        ValueV::Integer(n) => spec_int_text(n),
        ValueV::Float(b) => single::single_text_of(b),
        ValueV::Bool(b) => if b {
            "true"@
        } else {
            "false"@
        },
    }
}

/// The single-precision bits a value coerces to, if any: a float is
/// itself, an integer is widened, text is parsed as a floating-point
/// literal; booleans and multi-line text never coerce.
pub open spec fn spec_coerce(v: ValueV) -> Option<u32> {
    match v {
        ValueV::Float(b) => Some(b),
        ValueV::Integer(n) => Some(single::single_bits_of_int(n)),
        ValueV::Text(t) => single::spec_float_bits_of_text(t),
        _ => None,
    }
}

impl Value {
    /// The value denoted by a piece of text; multi-line content turns
    /// into `MultiLineText` with the default delimiter token `EOF`.
    pub fn from_text(s: &str) -> (v: Value)
        ensures
            v@ == spec_value_of_text(s@),
    {
        let cs = text::chars_of(s);
        let mut has_nl = false;
        let mut i: usize = 0;
        while i < cs.len()
            invariant
                i <= cs@.len(),
                cs@ == s@,
                has_nl == exists|j: int| 0 <= j < i && s@[j] == '\n',
            decreases cs@.len() - i,
        {
            if cs[i] == '\n' {
                has_nl = true;
            }
            i += 1;
        }
        if has_nl {
            proof {
                assert(s@.contains('\n'));
            }
            Value::MultiLineText(s.to_owned(), "EOF".to_owned())
        } else {
            proof {
                if s@.contains('\n') {
                    let j = choose|j: int| 0 <= j < s@.len() && s@[j] == '\n';
                    assert(false);
                }
            }
            Value::Text(s.to_owned())
        }
    }

    /// The value of an integer.
    pub fn from_int(n: i32) -> (v: Value)
        ensures
            v@ == ValueV::Integer(n as int),
    {
        Value::Integer(n)
    }

    /// The value of a single-precision number given as its bits.
    pub fn from_float_bits(b: u32) -> (v: Value)
        ensures
            v@ == ValueV::Float(b),
    {
        Value::Float(b)
    }

    /// The value of a boolean.
    pub fn from_bool(b: bool) -> (v: Value)
        ensures
            v@ == ValueV::Bool(b),
    {
        Value::Bool(b)
    }

    /// Returns true if the value is of the boolean kind.
    pub fn is_bool(&self) -> (r: bool)
        ensures
            r == (self@ is Bool),
    {
        match self {
            Value::Bool(_) => true,
            _ => false,
        }
    }

    /// Returns true if the value is some kind of number (integer or
    /// float).
    pub fn is_number(&self) -> (r: bool)
        ensures
            r == (self@ is Integer || self@ is Float),
    {
        match self {
            Value::Integer(_) => true,
            Value::Float(_) => true,
            _ => false,
        }
    }

    /// Returns true if the value is textual (single- or multi-line).
    pub fn is_text(&self) -> (r: bool)
        ensures
            r == (self@ is Text || self@ is MultiLineText),
    {
        match self {
            Value::Text(_) => true,
            Value::MultiLineText(_, _) => true,
            _ => false,
        }
    }

    /// Returns true if the value is an integer.
    pub fn is_integer(&self) -> (r: bool)
        ensures
            r == (self@ is Integer),
    {
        match self {
            Value::Integer(_) => true,
            _ => false,
        }
    }

    /// Returns true if the value is a float.
    pub fn is_float(&self) -> (r: bool)
        ensures
            r == (self@ is Float),
    {
        match self {
            Value::Float(_) => true,
            _ => false,
        }
    }

    /// An equal value.
    pub fn duplicate(&self) -> (r: Value)
        ensures
            r@ == self@,
    {
        match self {
            Value::Text(t) => Value::Text(t.clone()),
            Value::MultiLineText(t, sep) => Value::MultiLineText(t.clone(), sep.clone()),
            Value::Integer(n) => Value::Integer(*n),
            Value::Float(b) => Value::Float(*b),
            Value::Bool(b) => Value::Bool(*b),
        }
    }

    /// The textual rendering of the value.
    pub fn to_text(&self) -> (r: String)
        ensures
            r@ == spec_render(self@),
    {
        match self {
            Value::Text(t) => t.clone(),
            Value::MultiLineText(t, sep) => {
                let mut r = String::new();
                r.append("<<");
                r.append(sep.as_str());
                r.append("\n");
                r.append(t.as_str());
                r.append("\n");
                r.append(sep.as_str());
                r
            },
            Value::Integer(n) => int_to_string(*n),
            Value::Float(b) => single::single_display(*b),
            Value::Bool(b) => {
                if *b {
                    "true".to_owned()
                } else {
                    "false".to_owned()
                }
            },
        }
    }

    /// The single-precision bits the value coerces to, if any.
    pub fn to_float_bits(&self) -> (r: Option<u32>)
        ensures
            r == spec_coerce(self@),
    {
        match self {
            Value::Float(b) => Some(*b),
            Value::Integer(n) => Some(single::single_from_int(*n)),
            Value::Text(t) => single::float_bits_of_text(t.as_str()),
            _ => None,
        }
    }
}

/// Appends the decimal rendering of `n` to `v`.
fn push_nat_text(v: &mut Vec<char>, n: u32)
    ensures
        final(v)@ == old(v)@ + spec_nat_text(n as int),
    decreases n,
{
    if n <= 9 {
        let c = ((48 + n) as u8) as char;
        v.push(c);
        proof {
            assert(v@ =~= old(v)@ + spec_nat_text(n as int));
        }
        return ;
    } else {
        push_nat_text(v, n / 10);
        let c = ((48 + n % 10) as u8) as char;
        v.push(c);
        proof {
            assert(v@ =~= old(v)@ + spec_nat_text(n as int));
        }
    }
}

/// Decimal rendering of a 32-bit integer.
pub fn int_to_string(n: i32) -> (r: String)
    ensures
        r@ == spec_int_text(n as int),
{
    let mut v: Vec<char> = Vec::new();
    if n < 0 {
        v.push('-');
        let wide: i64 = n as i64;
        let mag: u32 = (-wide) as u32;
        push_nat_text(&mut v, mag);
        proof {
            assert(v@ =~= seq!['-'] + spec_nat_text(-(n as int)));
        }
    } else {
        push_nat_text(&mut v, n as u32);
        proof {
            assert(v@ =~= spec_nat_text(n as int));
        }
    }
    text::string_of(v.as_slice())
}

impl PartialEq for Value {
    fn eq(&self, other: &Self) -> (r: bool) {
        match (self, other) {
            (Value::Text(x), Value::Text(y)) => *x == *y,
            (Value::MultiLineText(x, sx), Value::MultiLineText(y, sy)) => *x == *y && *sx == *sy,
            (Value::Integer(x), Value::Integer(y)) => *x == *y,
            (Value::Float(x), Value::Float(y)) => single::float_eq(*x, *y),
            (Value::Bool(x), Value::Bool(y)) => *x == *y,
            _ => false,
        }
    }
}

impl vstd::std_specs::cmp::PartialEqSpecImpl for Value {
    open spec fn obeys_eq_spec() -> bool {
        true
    }

    open spec fn eq_spec(&self, other: &Value) -> bool {
        value_eq_spec(self@, other@)
    }
}

} // verus!
