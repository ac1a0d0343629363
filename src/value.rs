//! Identifiers, validity timestamps and data values.
use vstd::prelude::*;

verus! {

/// An entity identifier.
#[derive(Clone, Copy, Debug, PartialEq, Eq, PartialOrd, Ord, Hash, Structural)]
pub struct EntityId(pub u64);

/// An attribute identifier; the key layout stores it in four bytes.
#[derive(Clone, Copy, Debug, PartialEq, Eq, PartialOrd, Ord, Hash, Structural)]
pub struct AttrId(pub u32);

/// A transaction identifier.
#[derive(Clone, Copy, Debug, PartialEq, Eq, PartialOrd, Ord, Hash, Structural)]
pub struct TxId(pub u64);

/// A logical timestamp: a fact is visible at its validity and onward.
#[derive(Clone, Copy, Debug, PartialEq, Eq, PartialOrd, Ord, Hash, Structural)]
pub struct Validity(pub i64);

/// The mathematical content of a `DataValue`.
pub enum ValueView {
    Null,
    Bool(bool),
    Int(i64),
    Str(Seq<char>),
    EnId(u64),
    Bottom,
}

/// A tagged value stored in triples and produced by queries.
#[derive(Clone, Debug)]
pub enum DataValue {
    Null,
    Bool(bool),
    Int(i64),
    Str(String),
    EnId(EntityId),
    /// Sorts above every other value.
    Bottom,
}

impl View for DataValue {
    type V = ValueView;

    open spec fn view(&self) -> ValueView {
        match self {
            DataValue::Null => ValueView::Null,
            DataValue::Bool(b) => ValueView::Bool(*b),
            DataValue::Int(i) => ValueView::Int(*i),
            DataValue::Str(s) => ValueView::Str(s@),
            DataValue::EnId(e) => ValueView::EnId(e.0),
            DataValue::Bottom => ValueView::Bottom,
        }
    }
}

impl DataValue {
    /// A copy with the same content.
    pub fn duplicate(&self) -> (r: DataValue)
        ensures
            r@ == self@,
    {
        match self {
            DataValue::Null => DataValue::Null,
            DataValue::Bool(b) => DataValue::Bool(*b),
            DataValue::Int(i) => DataValue::Int(*i),
            DataValue::Str(s) => DataValue::Str(s.clone()),
            DataValue::EnId(e) => DataValue::EnId(*e),
            DataValue::Bottom => DataValue::Bottom,
        }
    }

    /// Whether two values have the same content.
    pub fn same_as(&self, other: &DataValue) -> (r: bool)
        ensures
            r == (self@ == other@),
    {
        match self {
            DataValue::Null => match other {
                DataValue::Null => true,
                _ => false,
            },
            DataValue::Bool(a) => match other {
                DataValue::Bool(b) => *a == *b,
                _ => false,
            },
            DataValue::Int(a) => match other {
                DataValue::Int(b) => *a == *b,
                _ => false,
            },
            DataValue::Str(a) => match other {
                DataValue::Str(b) => *a == *b,
                _ => false,
            },
            DataValue::EnId(a) => match other {
                DataValue::EnId(b) => a.0 == b.0,
                _ => false,
            },
            DataValue::Bottom => match other {
                DataValue::Bottom => true,
                _ => false,
            },
        }
    }
}

} // verus!
