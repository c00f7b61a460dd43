//! Generated scalar values and their mathematical view.

use vstd::prelude::*;

verus! {

/// A scalar produced by expression evaluation. Immutable once produced.
#[derive(Debug)]
pub enum Value {
    /// The absent value.
    Null,
    /// A signed integer.
    Int(i64),
    /// A piece of text.
    Text(String),
    /// A raw byte sequence.
    Bytes(Vec<u8>),
    /// A timestamp, as seconds since the Unix epoch.
    Timestamp(i64),
}

/// The mathematical view of a [`Value`].
pub enum ValueV {
    /// The absent value.
    Null,
    /// A signed integer.
    Int(int),
    /// A piece of text, as its character sequence.
    Text(Seq<char>),
    /// A raw byte sequence.
    Bytes(Seq<u8>),
    /// A timestamp, as seconds since the Unix epoch.
    Timestamp(int),
}

impl View for Value {
    type V = ValueV;

    open spec fn view(&self) -> ValueV {
        match self {
            Value::Null => ValueV::Null,
            Value::Int(i) => ValueV::Int(*i as int),
            Value::Text(s) => ValueV::Text(s@),
            Value::Bytes(b) => ValueV::Bytes(b@),
            Value::Timestamp(t) => ValueV::Timestamp(*t as int),
        }
    }
}

} // verus!
