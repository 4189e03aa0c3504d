//! The structured value that requests and responses are made of, and its
//! mathematical model.

use vstd::prelude::*;

verus! {

/// A value as it travels between the codec, the dispatcher and the log.
#[derive(Debug, PartialEq)]
pub enum RespValue {
    SimpleString(String),
    Error(String),
    Integer(i32),
    BulkString(Option<String>),
    Array(Vec<RespValue>),
    Null,
}

/// The model of a [`RespValue`]: text as a sequence of characters, an array
/// as a sequence of models.
pub ghost enum Value {
    SimpleString(Seq<char>),
    Error(Seq<char>),
    Integer(i32),
    BulkString(Option<Seq<char>>),
    Array(Seq<Value>),
    Null,
}

/// The models of a sequence of values, element by element.
pub open spec fn views(items: Seq<RespValue>) -> Seq<Value>
    decreases items,
{
    Seq::new(items.len(), |i: int| if 0 <= i < items.len() { items[i].view() } else { Value::Null })
}

impl View for RespValue {
    type V = Value;

    open spec fn view(&self) -> Value
        decreases self,
    {
        match self {
            RespValue::SimpleString(s) => Value::SimpleString(s@),
            RespValue::Error(s) => Value::Error(s@),
            RespValue::Integer(i) => Value::Integer(*i),
            RespValue::BulkString(Some(s)) => Value::BulkString(Some(s@)),
            RespValue::BulkString(None) => Value::BulkString(None),
            RespValue::Array(items) => Value::Array(views(items@)),
            RespValue::Null => Value::Null,
        }
    }
}

impl Clone for RespValue {
    /// A deep copy: the clone has the same model as the value it was made of.
    fn clone(&self) -> (res: Self)
        ensures
            res@ == self@,
        decreases self,
    {
        match self {
            RespValue::SimpleString(s) => RespValue::SimpleString(s.clone()),
            RespValue::Error(s) => RespValue::Error(s.clone()),
            RespValue::Integer(i) => RespValue::Integer(*i),
            RespValue::BulkString(Some(s)) => RespValue::BulkString(Some(s.clone())),
            RespValue::BulkString(None) => RespValue::BulkString(None),
            RespValue::Array(items) => {
                let mut copy: Vec<RespValue> = Vec::new();
                let mut i: usize = 0;
                while i < items.len()
                    invariant
                        i <= items.len(),
                        copy.len() == i,
                        forall|j: int| 0 <= j < i ==> copy@[j]@ == items@[j]@,
                        *self == RespValue::Array(*items),
                    decreases items.len() - i,
                {
                    assert(decreases_to!(*self => self->Array_0));
                    copy.push(items[i].clone());
                    i += 1;
                }
                assert(views(copy@) =~= views(items@));
                RespValue::Array(copy)
            },
            RespValue::Null => RespValue::Null,
        }
    }
}

} // verus!
