//! The values that the protocol carries, and their mathematical model.

use vstd::prelude::*;

verus! {

/// A value of the protocol.
#[derive(Debug, PartialEq, Eq)]
pub enum Value {
    /// The absent bulk value.
    Null,
    /// The absent array.
    NullArray,
    /// A simple string: one line of text.
    String(String),
    /// An error message: one line of text.
    Error(String),
    /// A signed 64-bit integer.
    Integer(i64),
    /// A length-prefixed payload of text.
    Bulk(String),
    /// A length-prefixed payload of raw bytes.
    BufBulk(Vec<u8>),
    /// A length-prefixed sequence of values.
    Array(Vec<Value>),
}

/// The model of a [`Value`]: text as its characters, payloads and arrays as
/// sequences.
pub enum Resp {
    Null,
    NullArray,
    String(Seq<char>),
    Error(Seq<char>),
    Integer(i64),
    Bulk(Seq<char>),
    BufBulk(Seq<u8>),
    Array(Seq<Resp>),
}

/// The model of a value.
pub open spec fn model_of(v: Value) -> Resp
    decreases v,
{
    match v {
        Value::Null => Resp::Null,
        Value::NullArray => Resp::NullArray,
        Value::String(s) => Resp::String(s@),
        Value::Error(s) => Resp::Error(s@),
        Value::Integer(i) => Resp::Integer(i),
        Value::Bulk(s) => Resp::Bulk(s@),
        Value::BufBulk(b) => Resp::BufBulk(b@),
        Value::Array(items) => Resp::Array(
            Seq::new(
                items.len() as nat,
                |i: int|
                    if 0 <= i < items.len() {
                        model_of(items[i])
                    } else {
                        Resp::Null
                    },
            ),
        ),
    }
}

impl View for Value {
    type V = Resp;

    open spec fn view(&self) -> Resp {
        model_of(*self)
    }
}

impl Clone for Value {
    fn clone(&self) -> (res: Self)
        ensures
            res@ == self@,
        decreases self,
    {
        match self {
            Value::Null => Value::Null,
            Value::NullArray => Value::NullArray,
            Value::String(s) => Value::String(s.clone()),
            Value::Error(s) => Value::Error(s.clone()),
            Value::Integer(i) => Value::Integer(*i),
            Value::Bulk(s) => Value::Bulk(s.clone()),
            Value::BufBulk(b) => {
                let copy = b.clone();
                assert(copy@ =~= b@);
                Value::BufBulk(copy)
            },
            Value::Array(items) => {
                let mut copies: Vec<Value> = Vec::new();
                let mut i: usize = 0;
                while i < items.len()
                    invariant
                        i <= items.len(),
                        copies.len() == i,
                        forall|j: int| 0 <= j < i ==> copies[j]@ == items[j]@,
                        *self == Value::Array(*items),
                    decreases items.len() - i,
                {
                    assert(decreases_to!(*self => self->Array_0[i as int]));
                    copies.push(items[i].clone());
                    i += 1;
                }
                let res = Value::Array(copies);
                proof {
                    lemma_array_view(res);
                    lemma_array_view(*self);
                    assert(views(copies@) =~= views(items@));
                }
                res
            },
        }
    }
}

/// The models of a sequence of values, in order.
pub open spec fn views(items: Seq<Value>) -> Seq<Resp> {
    Seq::new(items.len(), |i: int| items[i]@)
}

/// An array's model holds the models of its items.
pub proof fn lemma_array_view(v: Value)
    requires
        v is Array,
    ensures
        v@ == Resp::Array(views(v->Array_0@)),
{
    let items = v->Array_0;
    assert(v == Value::Array(items));
    let w = Value::Array(items);
    assert(w@ is Array);
    assert(w.view()->Array_0.len() == items@.len());
    assert(v@->Array_0 =~= views(v->Array_0@));
}

} // verus!
