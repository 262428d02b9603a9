//! The tagged wire value exchanged with the remote table peer.
//!
//! Floating-point payloads are carried as raw IEEE-754 bit patterns; the
//! unverified shell that owns the network connection converts them to and
//! from the machine float types at the boundary.

use vstd::prelude::*;

verus! {

broadcast use vstd::seq::group_seq_axioms, vstd::seq_lib::group_seq_lib_default;

/// A value as it appears on the wire: a tagged scalar, a byte string,
/// an array of values, or an association list.
#[derive(Debug, PartialEq)]
pub enum Value {
    Nil,
    Boolean(bool),
    Integer(i64),
    F32Bits(u32),
    F64Bits(u64),
    Text(String),
    Binary(Vec<u8>),
    Array(Vec<Value>),
    Dict(Vec<(Value, Value)>),
}

/// The mathematical shape of a [`Value`]: strings become character
/// sequences, vectors become sequences, so that contracts can speak of
/// contents rather than of allocations.
pub enum ValueV {
    Nil,
    Boolean(bool),
    Integer(i64),
    F32Bits(u32),
    F64Bits(u64),
    Text(Seq<char>),
    Binary(Seq<u8>),
    Array(Seq<ValueV>),
    Dict(Seq<(ValueV, ValueV)>),
}

impl View for Value {
    type V = ValueV;

    open spec fn view(&self) -> ValueV
        decreases self,
    {
        match self {
            Value::Nil => ValueV::Nil,
            Value::Boolean(b) => ValueV::Boolean(*b),
            Value::Integer(i) => ValueV::Integer(*i),
            Value::F32Bits(bits) => ValueV::F32Bits(*bits),
            Value::F64Bits(bits) => ValueV::F64Bits(*bits),
            Value::Text(s) => ValueV::Text(s@),
            Value::Binary(bytes) => ValueV::Binary(bytes@),
            Value::Array(items) => ValueV::Array(seq_view(items@)),
            Value::Dict(pairs) => ValueV::Dict(pair_seq_view(pairs@)),
        }
    }
}

/// The views of a sequence of values, elementwise.
pub open spec fn seq_view(s: Seq<Value>) -> Seq<ValueV>
    decreases s,
{
    if s.len() == 0 {
        Seq::empty()
    } else {
        seq![s[0]@] + seq_view(s.drop_first())
    }
}

/// The views of a sequence of value pairs, elementwise.
pub open spec fn pair_seq_view(s: Seq<(Value, Value)>) -> Seq<(ValueV, ValueV)>
    decreases s,
{
    if s.len() == 0 {
        Seq::empty()
    } else {
        seq![(s[0].0@, s[0].1@)] + pair_seq_view(s.drop_first())
    }
}

/// `seq_view` is the elementwise view.
pub broadcast proof fn lemma_seq_view(s: Seq<Value>)
    ensures
        (#[trigger] seq_view(s)).len() == s.len(),
        forall|i: int| 0 <= i < s.len() ==> seq_view(s)[i] == s[i]@,
    decreases s,
{
    assert(s.len() == 0 ==> seq_view(s) == Seq::<ValueV>::empty());
    assert(s.len() > 0 ==> seq_view(s) == seq![s[0]@] + seq_view(s.drop_first()));
    if s.len() > 0 {
        lemma_seq_view(s.drop_first());
        assert forall|i: int| 0 <= i < s.len() implies seq_view(s)[i] == s[i]@ by {
            if i > 0 {
                assert(s.drop_first()[i - 1] == s[i]);
            }
        }
    }
}

/// `pair_seq_view` is the elementwise view.
pub broadcast proof fn lemma_pair_seq_view(s: Seq<(Value, Value)>)
    ensures
        (#[trigger] pair_seq_view(s)).len() == s.len(),
        forall|i: int| 0 <= i < s.len() ==> pair_seq_view(s)[i] == (s[i].0@, s[i].1@),
    decreases s,
{
    assert(s.len() == 0 ==> pair_seq_view(s) == Seq::<(ValueV, ValueV)>::empty());
    assert(s.len() > 0 ==> pair_seq_view(s) == seq![(s[0].0@, s[0].1@)] + pair_seq_view(
        s.drop_first(),
    ));
    if s.len() > 0 {
        lemma_pair_seq_view(s.drop_first());
        assert forall|i: int| 0 <= i < s.len() implies pair_seq_view(s)[i] == (
        s[i].0@,
        s[i].1@,
        ) by {
            if i > 0 {
                assert(s.drop_first()[i - 1] == s[i]);
            }
        }
    }
}

/// The wire type declared when a topic is published, inferred from the
/// value being written.
#[derive(Clone, Copy, Debug, PartialEq, Eq, Structural)]
pub enum WireType {
    Boolean,
    Int,
    Float,
    Double,
    Text,
    Raw,
    BooleanArray,
    IntArray,
    FloatArray,
    DoubleArray,
    TextArray,
}

/// A value for which no wire type exists.
#[derive(Clone, Copy, Debug, PartialEq, Eq, Structural)]
pub enum TypeError {
    /// An association list cannot be published as a topic value.
    NestedDict,
    /// An array whose first element is itself an array, a byte string or
    /// an association list has no array wire type.
    UnsupportedElement,
}

/// The scalar wire type of an array element, if it has one.
pub open spec fn spec_elem_type(v: ValueV) -> Option<WireType> {
    match v {
        ValueV::Boolean(_) => Some(WireType::Boolean),
        ValueV::Integer(_) => Some(WireType::Int),
        ValueV::Nil => Some(WireType::Int),
        ValueV::F32Bits(_) => Some(WireType::Float),
        ValueV::F64Bits(_) => Some(WireType::Double),
        ValueV::Text(_) => Some(WireType::Text),
        _ => None,
    }
}

/// The wire type a value is published under.  An absent value counts as
/// an integer; an array takes the type of its first element, an empty
/// array the integer array type.
pub open spec fn spec_value_type(v: ValueV) -> Result<WireType, TypeError> {
    match v {
        ValueV::Nil => Ok(WireType::Int),
        ValueV::Boolean(_) => Ok(WireType::Boolean),
        ValueV::Integer(_) => Ok(WireType::Int),
        ValueV::F32Bits(_) => Ok(WireType::Float),
        ValueV::F64Bits(_) => Ok(WireType::Double),
        ValueV::Text(_) => Ok(WireType::Text),
        ValueV::Binary(_) => Ok(WireType::Raw),
        ValueV::Array(items) => if items.len() == 0 {
            Ok(WireType::IntArray)
        } else {
            match spec_elem_type(items[0]) {
                Some(WireType::Boolean) => Ok(WireType::BooleanArray),
                Some(WireType::Int) => Ok(WireType::IntArray),
                Some(WireType::Float) => Ok(WireType::FloatArray),
                Some(WireType::Double) => Ok(WireType::DoubleArray),
                Some(WireType::Text) => Ok(WireType::TextArray),
                _ => Err(TypeError::UnsupportedElement),
            }
        },
        ValueV::Dict(_) => Err(TypeError::NestedDict),
    }
}

/// Whether a value is an array whose elements are all strings.
pub open spec fn is_text_array(v: ValueV) -> bool {
    &&& v matches ValueV::Array(items)
    &&& forall|i: int| 0 <= i < items.len() ==> items[i] is Text
}

/// The strings of a string array.
pub open spec fn text_array(v: ValueV) -> Seq<Seq<char>> {
    v->Array_0.map_values(|e: ValueV| e->Text_0)
}

impl Value {
    /// The string payload, when the value is a string.
    pub fn try_to_string(&self) -> (r: Option<String>)
        ensures
            match r {
                Some(s) => self@ == ValueV::Text(s@),
                None => !(self@ is Text),
            },
    {
        match self {
            Value::Text(s) => Some(s.clone()),
            _ => None,
        }
    }

    /// The strings of a string array, when the value is one.
    pub fn try_to_string_array(&self) -> (r: Option<Vec<String>>)
        ensures
            match r {
                Some(out) => is_text_array(self@) && out@.map_values(|s: String| s@)
                    =~= text_array(self@),
                None => !is_text_array(self@),
            },
    {
        match self {
            Value::Array(items) => {
                let mut out: Vec<String> = Vec::new();
                let mut i: usize = 0;
                proof {
                    lemma_seq_view(items@);
                }
                while i < items.len()
                    invariant
                        *self == Value::Array(*items),
                        i <= items.len(),
                        out@.len() == i,
                        seq_view(items@).len() == items@.len(),
                        forall|j: int| 0 <= j < items@.len() ==> seq_view(items@)[j]
                            == items@[j]@,
                        forall|j: int| 0 <= j < i ==> items@[j]@ is Text,
                        forall|j: int| 0 <= j < i ==> out@[j]@ == items@[j]@->Text_0,
                    decreases items.len() - i,
                {
                    match &items[i] {
                        Value::Text(s) => {
                            out.push(s.clone());
                        }
                        _ => {
                            proof {
                                assert(!(items@[i as int]@ is Text));
                                assert(self@ == ValueV::Array(seq_view(items@)));
                                assert(!(seq_view(items@)[i as int] is Text));
                                assert(!is_text_array(self@));
                            }
                            return None;
                        }
                    }
                    i = i + 1;
                }
                proof {
                    assert(out@.map_values(|s: String| s@) =~= text_array(self@));
                }
                Some(out)
            }
            _ => None,
        }
    }

    /// The wire type this value is published under.
    pub fn value_type(&self) -> (r: Result<WireType, TypeError>)
        ensures
            r == spec_value_type(self@),
    {
        match self {
            Value::Nil => Ok(WireType::Int),
            Value::Boolean(_) => Ok(WireType::Boolean),
            Value::Integer(_) => Ok(WireType::Int),
            Value::F32Bits(_) => Ok(WireType::Float),
            Value::F64Bits(_) => Ok(WireType::Double),
            Value::Text(_) => Ok(WireType::Text),
            Value::Binary(_) => Ok(WireType::Raw),
            Value::Array(items) => {
                proof {
                    lemma_seq_view(items@);
                }
                if items.len() == 0 {
                    Ok(WireType::IntArray)
                } else {
                    match &items[0] {
                        Value::Boolean(_) => Ok(WireType::BooleanArray),
                        Value::Integer(_) => Ok(WireType::IntArray),
                        Value::Nil => Ok(WireType::IntArray),
                        Value::F32Bits(_) => Ok(WireType::FloatArray),
                        Value::F64Bits(_) => Ok(WireType::DoubleArray),
                        Value::Text(_) => Ok(WireType::TextArray),
                        _ => Err(TypeError::UnsupportedElement),
                    }
                }
            }
            Value::Dict(_) => Err(TypeError::NestedDict),
        }
    }

    /// A structural copy: the result has the same mathematical shape.
    pub fn duplicate(&self) -> (r: Value)
        ensures
            r@ == self@,
        decreases self,
    {
        match self {
            Value::Nil => Value::Nil,
            Value::Boolean(b) => Value::Boolean(*b),
            Value::Integer(i) => Value::Integer(*i),
            Value::F32Bits(bits) => Value::F32Bits(*bits),
            Value::F64Bits(bits) => Value::F64Bits(*bits),
            Value::Text(s) => Value::Text(s.clone()),
            Value::Binary(bytes) => Value::Binary(bytes.clone()),
            Value::Array(items) => {
                let mut out: Vec<Value> = Vec::new();
                let mut i: usize = 0;
                while i < items.len()
                    invariant
                        *self == Value::Array(*items),
                        i <= items.len(),
                        out@.len() == i,
                        forall|j: int| 0 <= j < i ==> out@[j]@ == items@[j]@,
                    decreases items.len() - i,
                {
                    proof {
                        assert(decreases_to!(*self => (*self)->Array_0));
                        assert((*self)->Array_0 == *items);
                        assert(decreases_to!(*items => items@));
                        assert(decreases_to!(items@ => items@[i as int]));
                    }
                    out.push(items[i].duplicate());
                    i = i + 1;
                }
                proof {
                    lemma_seq_view(out@);
                    lemma_seq_view(items@);
                    assert(seq_view(out@) =~= seq_view(items@));
                }
                Value::Array(out)
            }
            Value::Dict(pairs) => {
                let mut out: Vec<(Value, Value)> = Vec::new();
                let mut i: usize = 0;
                while i < pairs.len()
                    invariant
                        *self == Value::Dict(*pairs),
                        i <= pairs.len(),
                        out@.len() == i,
                        forall|j: int| 0 <= j < i ==> out@[j].0@ == pairs@[j].0@
                            && out@[j].1@ == pairs@[j].1@,
                    decreases pairs.len() - i,
                {
                    proof {
                        assert(decreases_to!(*self => (*self)->Dict_0));
                        assert((*self)->Dict_0 == *pairs);
                        assert(decreases_to!(*pairs => pairs@));
                        assert(decreases_to!(pairs@ => pairs@[i as int]));
                        assert(decreases_to!(pairs@[i as int] => pairs@[i as int].0));
                        assert(decreases_to!(pairs@[i as int] => pairs@[i as int].1));
                    }
                    let copy = (pairs[i].0.duplicate(), pairs[i].1.duplicate());
                    out.push(copy);
                    i = i + 1;
                }
                proof {
                    lemma_pair_seq_view(out@);
                    lemma_pair_seq_view(pairs@);
                    assert(pair_seq_view(out@) =~= pair_seq_view(pairs@));
                }
                Value::Dict(out)
            }
        }
    }
}

impl Clone for Value {
    fn clone(&self) -> (r: Value)
        ensures
            r@ == self@,
    {
        self.duplicate()
    }
}

} // verus!
