//! The raw value carried by a configuration setting between the parser and
//! the encoders.
use vstd::prelude::*;
use vstd::string::StringSliceAdditionalSpecFns;
use vstd::utf8::encode_utf8;

verus! {

#[derive(Clone, Debug)]
pub enum Value {
    /// A decimal literal. Held signed because the grammar accepts `-1`.
    Num(i64),
    /// A value the lexer captured as text: addresses, hex strings, OIDs.
    Text(String),
    /// A quoted string literal, kept as bytes so that non-ASCII content
    /// survives the round trip.
    Bytes(Vec<u8>),
}

/// The number a value holds, 0 for text.
pub open spec fn value_num(v: Value) -> i64 {
    match v {
        Value::Num(n) => n,
        _ => 0,
    }
}

/// The octets a value holds: the UTF-8 of text, the string's bytes, nothing
/// for a number.
pub open spec fn value_octets(v: Value) -> Seq<u8> {
    match v {
        Value::Num(_) => Seq::empty(),
        Value::Text(s) => encode_utf8(s@),
        Value::Bytes(b) => b@,
    }
}

/// The octets of the text a value holds, nothing unless it is text.
pub open spec fn value_text(v: Value) -> Seq<u8> {
    match v {
        Value::Text(s) => encode_utf8(s@),
        _ => Seq::empty(),
    }
}

impl Value {
    pub fn as_num(&self) -> (r: i64)
        ensures
            r == value_num(*self),
    {
        match self {
            Value::Num(v) => *v,
            _ => 0,
        }
    }

    pub fn as_text(&self) -> (r: &str)
        ensures
            r.spec_bytes() == value_text(*self),
    {
        match self {
            Value::Text(s) => {
                let r = s.as_str();
                r
            },
            _ => {
                let r = "";
                proof {
                    reveal_strlit("");
                }
                r
            },
        }
    }

    pub fn as_bytes(&self) -> (r: &[u8])
        ensures
            r@ == value_octets(*self),
    {
        match self {
            Value::Text(s) => s.as_str().as_bytes(),
            Value::Bytes(b) => b.as_slice(),
            Value::Num(_) => {
                let e: &[u8] = &[];
                assert(e@ =~= Seq::<u8>::empty());
                e
            },
        }
    }
}

} // verus!
