//! The decoded value tree and the error taxonomy.

use vstd::prelude::*;

verus! {

/// A decoded bencode value: a tagged union mirroring the four forms of the
/// grammar. A dictionary is kept as its entries in insertion order, since
/// bencode dictionaries are ordered key/value sequences on the wire; keys are
/// always byte strings.
#[derive(Debug, PartialEq, Eq)]
pub enum Value {
    Integer(i64),
    ByteString(Vec<u8>),
    List(Vec<Value>),
    Dictionary(Vec<(Vec<u8>, Value)>),
}

/// The mathematical model of a `Value`: the same tree over `int`, `Seq<u8>`
/// and `Seq`, which the contracts speak of.
pub enum SpecValue {
    Integer(int),
    ByteString(Seq<u8>),
    List(Seq<SpecValue>),
    Dictionary(Seq<(Seq<u8>, SpecValue)>),
}

impl Value {
    /// The model of this value.
    pub open spec fn spec_view(self) -> SpecValue
        decreases self,
    {
        match self {
            Value::Integer(n) => SpecValue::Integer(n as int),
            Value::ByteString(b) => SpecValue::ByteString(b@),
            Value::List(vs) => SpecValue::List(
                Seq::new(vs@.len(), |i: int| if 0 <= i < vs@.len() {
                    vs@[i].spec_view()
                } else {
                    SpecValue::Integer(0)
                }),
            ),
            Value::Dictionary(ps) => SpecValue::Dictionary(
                Seq::new(ps@.len(), |i: int| if 0 <= i < ps@.len() {
                    (ps@[i].0@, ps@[i].1.spec_view())
                } else {
                    (Seq::empty(), SpecValue::Integer(0))
                }),
            ),
        }
    }
}

/// The models of a sequence of values, element by element.
pub open spec fn models(vs: Seq<Value>) -> Seq<SpecValue> {
    Seq::new(vs.len(), |i: int| if 0 <= i < vs.len() {
        vs[i].spec_view()
    } else {
        SpecValue::Integer(0)
    })
}

/// The models of a sequence of dictionary entries, element by element.
pub open spec fn entry_models(ps: Seq<(Vec<u8>, Value)>) -> Seq<(Seq<u8>, SpecValue)> {
    Seq::new(ps.len(), |i: int| if 0 <= i < ps.len() {
        (ps[i].0@, ps[i].1.spec_view())
    } else {
        (Seq::empty(), SpecValue::Integer(0))
    })
}

/// Why a decode failed. Every failure is a local structural fault of the
/// input; the decoder never returns a partial value and never panics.
#[derive(Debug, PartialEq, Eq, Clone, Copy, Structural)]
pub enum DecodeError {
    /// Inside `i...e`, the digits do not form a 64-bit signed integer, or the
    /// terminating `e` is missing.
    MalformedInteger,
    /// A byte string's length prefix is not a run of decimal digits, or the
    /// `:` separator is missing.
    MalformedLength,
    /// Fewer bytes remain than a byte string's length prefix declares.
    TruncatedString,
    /// A dictionary body holds an odd number of elements: its final key has
    /// no paired value.
    OddEntryCount,
    /// A dictionary key is not a byte string.
    NonStringKey,
    /// The leading byte of a value is none of `i`, `l`, `d` or a digit, or
    /// the input is empty where a value is required.
    UnknownToken,
    /// A list or dictionary body ended without its terminating `e`.
    UnterminatedSequence,
    /// The input nests lists or dictionaries deeper than the configured
    /// maximum.
    NestingTooDeep,
}

} // verus!
