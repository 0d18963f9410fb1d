//! Runtime data: the `Value` enum and its mathematical view.
use vstd::prelude::*;

verus! {

/// Mathematical model of a runtime value: the same shape as [`Value`],
/// with text as `Seq<char>` and byte vectors as `Seq<u8>`.
pub enum ValueView {
    Boolean(bool),
    ByteVector(Seq<u8>),
    Char(char),
    Eof,
    Null,
    Number(usize),
    Pair(Box<ValueView>, Box<ValueView>),
    String(Seq<char>),
    Symbol(Seq<char>),
}

/// A runtime datum. Only unsigned integers exist as numbers; pairs own
/// their children outright, so value trees are acyclic.
#[derive(Debug, PartialEq)]
pub enum Value {
    Boolean(bool),
    ByteVector(Vec<u8>),
    Char(char),
    Eof,
    Null,
    Number(usize),
    Pair(Box<Value>, Box<Value>),
    String(String),
    Symbol(String),
}

/// The mathematical value that a runtime datum denotes.
pub open spec fn value_view(v: &Value) -> ValueView
    decreases v,
{
    match v {
        Value::Boolean(b) => ValueView::Boolean(*b),
        Value::ByteVector(bytes) => ValueView::ByteVector(bytes@),
        Value::Char(c) => ValueView::Char(*c),
        Value::Eof => ValueView::Eof,
        Value::Null => ValueView::Null,
        Value::Number(n) => ValueView::Number(*n),
        Value::Pair(left, right) => ValueView::Pair(
            Box::new(value_view(left)),
            Box::new(value_view(right)),
        ),
        Value::String(s) => ValueView::String(s@),
        Value::Symbol(s) => ValueView::Symbol(s@),
    }
}

impl View for Value {
    type V = ValueView;

    open spec fn view(&self) -> ValueView {
        value_view(self)
    }
}

/// The views of a value sequence.
pub open spec fn vals_view(vs: Seq<Value>) -> Seq<ValueView> {
    vs.map_values(|v: Value| v@)
}

/// The view of an optional value.
pub open spec fn opt_val_view(o: Option<Value>) -> Option<ValueView> {
    match o {
        None => None,
        Some(v) => Some(v@),
    }
}

impl Clone for Value {
    /// A clone denotes the same mathematical value as what it copies.
    fn clone(&self) -> (r: Self)
        ensures
            r@ == self@,
        decreases self,
    {
        match self {
            Value::Boolean(b) => Value::Boolean(*b),
            Value::ByteVector(bytes) => {
                let mut copy: Vec<u8> = Vec::new();
                let mut i: usize = 0;
                while i < bytes.len()
                    invariant
                        i <= bytes.len(),
                        copy@ == bytes@.subrange(0, i as int),
                    decreases bytes.len() - i,
                {
                    copy.push(bytes[i]);
                    i = i + 1;
                }
                proof {
                    assert(copy@ =~= bytes@);
                }
                Value::ByteVector(copy)
            },
            Value::Char(c) => Value::Char(*c),
            Value::Eof => Value::Eof,
            Value::Null => Value::Null,
            Value::Number(n) => Value::Number(*n),
            Value::Pair(left, right) => {
                let l = (**left).clone();
                let r = (**right).clone();
                Value::Pair(Box::new(l), Box::new(r))
            },
            Value::String(s) => Value::String(s.clone()),
            Value::Symbol(s) => Value::Symbol(s.clone()),
        }
    }
}

} // verus!
