//! Runtime values.

use crate::number::Decimal;
use crate::text::{push_signed, signed_decimal};
use vstd::prelude::*;
use vstd::std_specs::cmp::PartialEqSpecImpl;
use vstd::string::*;

verus! {

/// The native callables a value can refer to. Two function values are the
/// same value exactly when they name the same callable.
#[derive(Clone, Copy, Debug, PartialEq, Eq, Structural)]
pub enum NativeFn {
    /// Shows its one argument on a line of its own.
    Print,
}

/// A runtime value.
#[derive(Debug)]
pub enum Value {
    Nil,
    Boolean(bool),
    Integer(i64),
    Float(Decimal),
    String(String),
    Function(NativeFn),
}

/// What a [`Value`] is, with text as a sequence of characters.
pub enum ValueView {
    Nil,
    Boolean(bool),
    Integer(i64),
    Float(Decimal),
    String(Seq<char>),
    Function(NativeFn),
}

impl View for Value {
    type V = ValueView;

    open spec fn view(&self) -> ValueView {
        match self {
            Value::Nil => ValueView::Nil,
            Value::Boolean(b) => ValueView::Boolean(*b),
            Value::Integer(i) => ValueView::Integer(*i),
            Value::Float(d) => ValueView::Float(*d),
            Value::String(s) => ValueView::String(s@),
            Value::Function(f) => ValueView::Function(*f),
        }
    }
}

/// The views of a sequence of values, in the same order.
pub open spec fn views(values: Seq<Value>) -> Seq<ValueView> {
    Seq::new(values.len(), |i: int| values[i]@)
}

impl ValueView {
    /// How a value is shown: `Nil` for nil, `true` or `false`, a number as it
    /// is written, text without quotes, `Function` for any callable.
    pub open spec fn text(self) -> Seq<char> {
        match self {
            ValueView::Nil => "Nil"@,
            ValueView::Boolean(b) => if b {
                "true"@
            } else {
                "false"@
            },
            ValueView::Integer(i) => signed_decimal(i as int),
            ValueView::Float(d) => d.text(),
            ValueView::String(s) => s,
            ValueView::Function(_) => "Function"@,
        }
    }
}

impl Clone for Value {
    fn clone(&self) -> (r: Self)
        ensures
            r@ == self@,
    {
        match self {
            Value::Nil => Value::Nil,
            Value::Boolean(b) => Value::Boolean(*b),
            Value::Integer(i) => Value::Integer(*i),
            Value::Float(d) => Value::Float(*d),
            Value::String(s) => Value::String(s.clone()),
            Value::Function(f) => Value::Function(*f),
        }
    }
}

impl PartialEq for Value {
    fn eq(&self, other: &Self) -> (r: bool) {
        match (self, other) {
            (Value::Nil, Value::Nil) => true,
            (Value::Boolean(a), Value::Boolean(b)) => *a == *b,
            (Value::Integer(a), Value::Integer(b)) => *a == *b,
            (Value::Float(a), Value::Float(b)) => *a == *b,
            (Value::String(a), Value::String(b)) => *a == *b,
            (Value::Function(a), Value::Function(b)) => *a == *b,
            (_, _) => false,
        }
    }
}

impl PartialEqSpecImpl for Value {
    open spec fn obeys_eq_spec() -> bool {
        true
    }

    open spec fn eq_spec(&self, other: &Self) -> bool {
        self@ == other@
    }
}

impl Value {
    /// The text that shows this value.
    pub fn to_string(&self) -> (s: String)
        ensures
            s@ == self@.text(),
    {
        match self {
            Value::Nil => String::from_str("Nil"),
            Value::Boolean(b) => if *b {
                String::from_str("true")
            } else {
                String::from_str("false")
            },
            Value::Integer(i) => {
                let mut s = String::new();
                push_signed(&mut s, *i);
                assert(Seq::<char>::empty() + signed_decimal(*i as int) =~= signed_decimal(
                    *i as int,
                ));
                s
            },
            Value::Float(d) => {
                let mut s = String::new();
                d.push_text(&mut s);
                assert(Seq::<char>::empty() + d.text() =~= d.text());
                s
            },
            Value::String(t) => t.clone(),
            Value::Function(_) => String::from_str("Function"),
        }
    }
}

} // verus!
