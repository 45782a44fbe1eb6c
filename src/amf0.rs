//! The AMF0 format: values, their mathematical model, and the wire layout.
use crate::amf3;
use crate::error::{DecodeError, EncodeError};
use crate::Pair;
use vstd::prelude::*;

pub mod decode;
pub mod encode;
pub mod round_trip;
pub mod truncation;
pub mod wire;

pub use self::decode::Decoder;
pub use self::encode::Encoder;

use self::wire::{enc, encodable, value_at};

verus! {

/// AMF0 value.
///
/// A number is held as its IEEE-754 bit pattern, and a date as milliseconds
/// since the Unix epoch.
#[derive(Debug, PartialEq, PartialOrd)]
pub enum Value {
    /// A number, as the bits of an IEEE-754 binary64.
    Number(u64),
    /// A boolean.
    Boolean(bool),
    /// A string (short or long on the wire).
    String(String),
    /// An anonymous or typed object.
    Object {
        /// The class name of the object; `None` for an anonymous object.
        class_name: Option<String>,
        /// Properties of the object.
        entries: Vec<Pair<String, Value>>,
    },
    /// The null value.
    Null,
    /// The undefined value.
    Undefined,
    /// An associative array.
    EcmaArray {
        /// Entries of the associative array.
        entries: Vec<Pair<String, Value>>,
    },
    /// A strict array.
    Array {
        /// Entries of the array.
        entries: Vec<Value>,
    },
    /// A date.
    Date {
        /// Milliseconds since the Unix epoch.
        unix_time: u64,
    },
    /// An XML document.
    XmlDocument(String),
    /// An AMF3 value embedded in AMF0.
    AvmPlus(amf3::Value),
}

/// The mathematical model of an AMF0 value.
pub enum Model {
    Number(u64),
    Boolean(bool),
    String(Seq<char>),
    Object { class_name: Option<Seq<char>>, entries: Seq<(Seq<char>, Model)> },
    Null,
    Undefined,
    EcmaArray { entries: Seq<(Seq<char>, Model)> },
    Array { entries: Seq<Model> },
    Date { unix_time: u64 },
    XmlDocument(Seq<char>),
    AvmPlus(amf3::Model),
}

pub open spec fn values_view(s: Seq<Value>) -> Seq<Model>
    decreases s,
{
    if s.len() == 0 {
        Seq::empty()
    } else {
        values_view(s.drop_last()).push(s.last().view())
    }
}

pub open spec fn pairs_view(s: Seq<Pair<String, Value>>) -> Seq<(Seq<char>, Model)>
    decreases s,
{
    if s.len() == 0 {
        Seq::empty()
    } else {
        pairs_view(s.drop_last()).push((s.last().key@, s.last().value.view()))
    }
}

impl View for Value {
    type V = Model;

    open spec fn view(&self) -> Model
        decreases self,
    {
        match self {
            Value::Number(n) => Model::Number(*n),
            Value::Boolean(b) => Model::Boolean(*b),
            Value::String(s) => Model::String(s@),
            Value::Object { class_name, entries } => Model::Object {
                class_name: amf3::opt_str_view(*class_name),
                entries: pairs_view(entries@),
            },
            Value::Null => Model::Null,
            Value::Undefined => Model::Undefined,
            Value::EcmaArray { entries } => Model::EcmaArray { entries: pairs_view(entries@) },
            Value::Array { entries } => Model::Array { entries: values_view(entries@) },
            Value::Date { unix_time } => Model::Date { unix_time: *unix_time },
            Value::XmlDocument(s) => Model::XmlDocument(s@),
            Value::AvmPlus(v) => Model::AvmPlus(v@),
        }
    }
}

pub proof fn lemma_values_view(s: Seq<Value>)
    ensures
        values_view(s).len() == s.len(),
        forall|i: int| 0 <= i < s.len() ==> #[trigger] values_view(s)[i] == s[i]@,
    decreases s.len(),
{
    if s.len() > 0 {
        lemma_values_view(s.drop_last());
        assert(values_view(s) == values_view(s.drop_last()).push(s.last()@));
        assert forall|i: int| 0 <= i < s.len() - 1 implies s.drop_last()[i] == s[i] by {}
    }
}

pub proof fn lemma_pairs_view(s: Seq<Pair<String, Value>>)
    ensures
        pairs_view(s).len() == s.len(),
        forall|i: int| 0 <= i < s.len() ==> #[trigger] pairs_view(s)[i] == (s[i].key@, s[i].value@),
    decreases s.len(),
{
    if s.len() > 0 {
        lemma_pairs_view(s.drop_last());
        assert(pairs_view(s) == pairs_view(s.drop_last()).push((s.last().key@, s.last().value@)));
        assert forall|i: int| 0 <= i < s.len() - 1 implies s.drop_last()[i] == s[i] by {}
    }
}

fn copy_values(s: &Vec<Value>) -> (r: Vec<Value>)
    ensures
        values_view(r@) == values_view(s@),
    decreases s,
{
    let mut r: Vec<Value> = Vec::new();
    let mut i: usize = 0;
    while i < s.len()
        invariant
            i <= s.len(),
            values_view(r@) == values_view(s@.subrange(0, i as int)),
        decreases s.len() - i,
    {
        assert(decreases_to!(s => s@[i as int]));
        let v = s[i].clone();
        proof {
            assert(s@.subrange(0, i + 1).drop_last() == s@.subrange(0, i as int));
            assert(r@.push(v).drop_last() == r@);
        }
        r.push(v);
        i += 1;
    }
    assert(s@.subrange(0, i as int) == s@);
    r
}

fn copy_pairs(s: &Vec<Pair<String, Value>>) -> (r: Vec<Pair<String, Value>>)
    ensures
        pairs_view(r@) == pairs_view(s@),
    decreases s,
{
    let mut r: Vec<Pair<String, Value>> = Vec::new();
    let mut i: usize = 0;
    while i < s.len()
        invariant
            i <= s.len(),
            pairs_view(r@) == pairs_view(s@.subrange(0, i as int)),
        decreases s.len() - i,
    {
        assert(decreases_to!(s => s@[i as int]));
        let p = Pair { key: s[i].key.clone(), value: s[i].value.clone() };
        proof {
            assert(s@.subrange(0, i + 1).drop_last() == s@.subrange(0, i as int));
            assert(r@.push(p).drop_last() == r@);
        }
        r.push(p);
        i += 1;
    }
    assert(s@.subrange(0, i as int) == s@);
    r
}

fn copy_opt_str(s: &Option<String>) -> (r: Option<String>)
    ensures
        amf3::opt_str_view(r) == amf3::opt_str_view(*s),
{
    match s {
        Some(x) => Some(x.clone()),
        None => None,
    }
}

impl Clone for Value {
    /// A deep copy: the copy has the same model.
    fn clone(&self) -> (r: Self)
        ensures
            r@ == self@,
        decreases self,
    {
        match self {
            Value::Number(n) => Value::Number(*n),
            Value::Boolean(b) => Value::Boolean(*b),
            Value::String(s) => Value::String(s.clone()),
            Value::Object { class_name, entries } => Value::Object {
                class_name: copy_opt_str(class_name),
                entries: copy_pairs(entries),
            },
            Value::Null => Value::Null,
            Value::Undefined => Value::Undefined,
            Value::EcmaArray { entries } => Value::EcmaArray { entries: copy_pairs(entries) },
            Value::Array { entries } => Value::Array { entries: copy_values(entries) },
            Value::Date { unix_time } => Value::Date { unix_time: *unix_time },
            Value::XmlDocument(s) => Value::XmlDocument(s.clone()),
            Value::AvmPlus(v) => Value::AvmPlus(v.clone()),
        }
    }
}

/// The entries of a strict array.
pub open spec fn contained_values(m: Model) -> Option<Seq<Model>> {
    match m {
        Model::Array { entries } => Some(entries),
        _ => None,
    }
}

/// The key-value pairs of an object or an ECMA array.
pub open spec fn contained_pairs(m: Model) -> Option<Seq<(Seq<char>, Model)>> {
    match m {
        Model::Object { entries, .. } | Model::EcmaArray { entries } => Some(entries),
        _ => None,
    }
}

/// The text of a string or an XML document, also inside an embedded AMF3
/// value.
pub open spec fn text_of(m: Model) -> Option<Seq<char>> {
    match m {
        Model::String(s) | Model::XmlDocument(s) => Some(s),
        Model::AvmPlus(x) => amf3::text_of(x),
        _ => None,
    }
}

impl Value {
    /// Reads an AMF0 encoded value from the start of `bytes`.
    ///
    /// Values that the input shares by reference are copied, and a circular
    /// reference is an error.
    pub fn read_from(bytes: &[u8]) -> (r: Result<Value, DecodeError>)
        ensures
            match value_at(bytes@, 0, Seq::empty()) {
                Ok((v, _, _)) => r is Ok && r->Ok_0@ == v,
                Err(e) => r is Err && r->Err_0@ == e,
            },
    {
        match decode::decode_bytes(bytes) {
            Ok((v, _)) => Ok(v),
            Err(e) => Err(e),
        }
    }

    /// Appends the AMF0 encoding of this value to `out`; fails, writing
    /// nothing, where the value is not encodable.
    pub fn write_to(&self, out: &mut Vec<u8>) -> (r: Result<(), EncodeError>)
        ensures
            r is Ok <==> encodable(self@),
            r is Ok ==> final(out)@ == old(out)@ + enc(self@),
            r is Err ==> final(out)@ == old(out)@,
    {
        if !encode::is_encodable(self) {
            return Err(EncodeError::OutOfRange);
        }
        encode::encode_into(out, self);
        Ok(())
    }

    /// The entries of a strict array.
pub open spec fn contained_values(m: Model) -> Option<Seq<Model>> {
    match m {
        Model::Array { entries } => Some(entries),
        _ => None,
    }
}

/// The key-value pairs of an object or an ECMA array.
pub open spec fn contained_pairs(m: Model) -> Option<Seq<(Seq<char>, Model)>> {
    match m {
        Model::Object { entries, .. } | Model::EcmaArray { entries } => Some(entries),
        _ => None,
    }
}

/// The text of a string or an XML document, also inside an embedded
    /// AMF3 value.
    pub fn try_as_str(&self) -> (r: Option<&str>)
        ensures
            match text_of(self@) {
                Some(s) => r is Some && r->Some_0@ == s,
                None => r is None,
            },
    {
        match self {
            Value::String(x) => Some(x.as_str()),
            Value::XmlDocument(x) => Some(x.as_str()),
            Value::AvmPlus(x) => x.try_as_str(),
            _ => None,
        }
    }

    /// The entries of a strict array; other values come back unchanged as
    /// the error.
    pub fn try_into_values(self) -> (r: Result<Vec<Value>, Value>)
        ensures
            match contained_values(self@) {
                Some(vs) => r is Ok && values_view(r->Ok_0@) == vs,
                None => r is Err && r->Err_0@ == self@,
            },
    {
        match self {
            Value::Array { entries } => Ok(entries),
            _ => Err(self),
        }
    }

    /// The key-value pairs of an object or an ECMA array; other values come
    /// back unchanged as the error.
    pub fn try_into_pairs(self) -> (r: Result<Vec<Pair<String, Value>>, Value>)
        ensures
            match contained_pairs(self@) {
                Some(ps) => r is Ok && pairs_view(r->Ok_0@) == ps,
                None => r is Err && r->Err_0@ == self@,
            },
    {
        match self {
            Value::Object { entries, .. } => Ok(entries),
            Value::EcmaArray { entries } => Ok(entries),
            _ => Err(self),
        }
    }
}

} // verus!
