//! Encoding and decoding of AMF (Action Message Format) values, in its two
//! versions AMF0 and AMF3.
//!
//! Each version has a value type, its mathematical model, and a wire format
//! stated as spec functions (`amf0::wire`, `amf3::wire`); the decoders and
//! encoders are proved to follow that format exactly. Values that the input
//! shares by reference are copied, and circular references are errors.
use vstd::prelude::*;

pub mod amf0;
pub mod amf3;
pub mod bytes;
pub mod date;
pub mod error;
pub mod laws;

pub use amf0::Value as Amf0Value;
pub use amf3::Value as Amf3Value;

verus! {

/// AMF decoding result.
pub type DecodeResult<T> = Result<T, error::DecodeError>;

/// Format version.
#[derive(Debug, Clone, Copy, PartialOrd, Ord, PartialEq, Eq, Hash)]
pub enum Version {
    /// Version 0.
    Amf0,
    /// Version 3.
    Amf3,
}

/// Key-value pair.
#[derive(Debug, Clone, PartialEq, Eq, PartialOrd, Ord, Hash)]
pub struct Pair<K, V> {
    /// The key of the pair.
    pub key: K,
    /// The value of the pair.
    pub value: V,
}

/// AMF value of either version.
#[derive(Debug, PartialEq, PartialOrd)]
pub enum Value {
    /// AMF0 value.
    Amf0(amf0::Value),
    /// AMF3 value.
    Amf3(amf3::Value),
}

/// The model of a value of either version.
pub enum ValueModel {
    Amf0(amf0::Model),
    Amf3(amf3::Model),
}

impl View for Value {
    type V = ValueModel;

    open spec fn view(&self) -> ValueModel {
        match self {
            Value::Amf0(x) => ValueModel::Amf0(x@),
            Value::Amf3(x) => ValueModel::Amf3(x@),
        }
    }
}

/// What decoding the start of `bytes` in a version gives.
pub open spec fn decoded(bytes: Seq<u8>, version: Version) -> Result<ValueModel, error::ErrorModel> {
    match version {
        Version::Amf0 => match amf0::wire::value_at(bytes, 0, Seq::empty()) {
            Ok((v, _, _)) => Ok(ValueModel::Amf0(v)),
            Err(e) => Err(e),
        },
        Version::Amf3 => match amf3::wire::value_at(bytes, 0, amf3::wire::Tables::empty()) {
            Ok((v, _, _)) => Ok(ValueModel::Amf3(v)),
            Err(e) => Err(e),
        },
    }
}

/// The encoding of a value in its own version.
pub open spec fn encoded(v: ValueModel) -> Seq<u8> {
    match v {
        ValueModel::Amf0(x) => amf0::wire::enc(x),
        ValueModel::Amf3(x) => amf3::wire::enc(x),
    }
}

/// Whether the encoder of its version accepts a value.
pub open spec fn encodable(v: ValueModel) -> bool {
    match v {
        ValueModel::Amf0(x) => amf0::wire::encodable(x),
        ValueModel::Amf3(x) => amf3::wire::encodable(x),
    }
}

/// AMF3 models, each wrapped as a value of AMF3.
pub open spec fn wrap3(vs: Seq<amf3::Model>) -> Seq<ValueModel> {
    vs.map_values(|m: amf3::Model| ValueModel::Amf3(m))
}

/// AMF0 models, each wrapped as a value of AMF0.
pub open spec fn wrap0(vs: Seq<amf0::Model>) -> Seq<ValueModel> {
    vs.map_values(|m: amf0::Model| ValueModel::Amf0(m))
}

pub open spec fn wrap_pairs3(ps: Seq<(Seq<char>, amf3::Model)>) -> Seq<(Seq<char>, ValueModel)> {
    ps.map_values(|p: (Seq<char>, amf3::Model)| (p.0, ValueModel::Amf3(p.1)))
}

pub open spec fn wrap_pairs0(ps: Seq<(Seq<char>, amf0::Model)>) -> Seq<(Seq<char>, ValueModel)> {
    ps.map_values(|p: (Seq<char>, amf0::Model)| (p.0, ValueModel::Amf0(p.1)))
}

/// The values that an array or vector holds, an embedded AMF3 one
/// included, each wrapped in its version.
pub open spec fn contained_values(v: ValueModel) -> Option<Seq<ValueModel>> {
    match v {
        ValueModel::Amf0(x) => match x {
            amf0::Model::AvmPlus(y) => match amf3::contained_values(y) {
                Some(vs) => Some(wrap3(vs)),
                None => None,
            },
            _ => match amf0::contained_values(x) {
                Some(vs) => Some(wrap0(vs)),
                None => None,
            },
        },
        ValueModel::Amf3(y) => match amf3::contained_values(y) {
            Some(vs) => Some(wrap3(vs)),
            None => None,
        },
    }
}

/// The key-value pairs of an object or associative array, an embedded AMF3
/// one included, each value wrapped in its version.
pub open spec fn contained_pairs(v: ValueModel) -> Option<Seq<(Seq<char>, ValueModel)>> {
    match v {
        ValueModel::Amf0(x) => match x {
            amf0::Model::AvmPlus(y) => match amf3::contained_pairs(y) {
                Some(ps) => Some(wrap_pairs3(ps)),
                None => None,
            },
            _ => match amf0::contained_pairs(x) {
                Some(ps) => Some(wrap_pairs0(ps)),
                None => None,
            },
        },
        ValueModel::Amf3(y) => match amf3::contained_pairs(y) {
            Some(ps) => Some(wrap_pairs3(ps)),
            None => None,
        },
    }
}

pub open spec fn values_of(r: Seq<Value>) -> Seq<ValueModel> {
    r.map_values(|v: Value| v@)
}

pub open spec fn pairs_of(r: Seq<(String, Value)>) -> Seq<(Seq<char>, ValueModel)> {
    r.map_values(|p: (String, Value)| (p.0@, p.1@))
}

impl Value {
    /// Reads a value of the given version from the start of `bytes`.
    pub fn read_from(bytes: &[u8], version: Version) -> (r: DecodeResult<Self>)
        ensures
            match decoded(bytes@, version) {
                Ok(v) => r is Ok && r->Ok_0@ == v,
                Err(e) => r is Err && r->Err_0@ == e,
            },
    {
        match version {
            Version::Amf0 => match amf0::Value::read_from(bytes) {
                Ok(v) => Ok(Value::Amf0(v)),
                Err(e) => Err(e),
            },
            Version::Amf3 => match amf3::Value::read_from(bytes) {
                Ok(v) => Ok(Value::Amf3(v)),
                Err(e) => Err(e),
            },
        }
    }

    /// Appends the encoding of this value to `out`; fails, writing nothing,
    /// where the value is not encodable.
    pub fn write_to(&self, out: &mut Vec<u8>) -> (r: Result<(), error::EncodeError>)
        ensures
            r is Ok <==> encodable(self@),
            r is Ok ==> final(out)@ == old(out)@ + encoded(self@),
            r is Err ==> final(out)@ == old(out)@,
    {
        match self {
            Value::Amf0(x) => x.write_to(out),
            Value::Amf3(x) => x.write_to(out),
        }
    }

    /// The text of a string or XML value.
    pub fn try_as_str(&self) -> (r: Option<&str>)
        ensures
            match (match self@ {
                ValueModel::Amf0(x) => amf0::text_of(x),
                ValueModel::Amf3(x) => amf3::text_of(x),
            }) {
                Some(s) => r is Some && r->Some_0@ == s,
                None => r is None,
            },
    {
        match self {
            Value::Amf0(x) => x.try_as_str(),
            Value::Amf3(x) => x.try_as_str(),
        }
    }

    /// The contained values of an array or vector, each wrapped in its
    /// version; other values come back unchanged as the error.
    pub fn try_into_values(self) -> (r: Result<Vec<Value>, Self>)
        ensures
            match contained_values(self@) {
                Some(vs) => r is Ok && values_of(r->Ok_0@) == vs,
                None => r is Err && r->Err_0@ == self@,
            },
    {
        match self {
            Value::Amf0(x) => match x {
                amf0::Value::AvmPlus(y) => match y.try_into_values() {
                    Ok(vs) => Ok(wrap_amf3(vs)),
                    Err(y) => Err(Value::Amf0(amf0::Value::AvmPlus(y))),
                },
                _ => match x.try_into_values() {
                    Ok(vs) => Ok(wrap_amf0(vs)),
                    Err(x) => Err(Value::Amf0(x)),
                },
            },
            Value::Amf3(x) => match x.try_into_values() {
                Ok(vs) => Ok(wrap_amf3(vs)),
                Err(x) => Err(Value::Amf3(x)),
            },
        }
    }

    /// The key-value pairs of an object or associative array, each value
    /// wrapped in its version; other values come back unchanged as the error.
    pub fn try_into_pairs(self) -> (r: Result<Vec<(String, Value)>, Self>)
        ensures
            match contained_pairs(self@) {
                Some(ps) => r is Ok && pairs_of(r->Ok_0@) == ps,
                None => r is Err && r->Err_0@ == self@,
            },
    {
        match self {
            Value::Amf0(x) => match x {
                amf0::Value::AvmPlus(y) => match y.try_into_pairs() {
                    Ok(ps) => Ok(pairs_amf3(ps)),
                    Err(y) => Err(Value::Amf0(amf0::Value::AvmPlus(y))),
                },
                _ => match x.try_into_pairs() {
                    Ok(ps) => Ok(pairs_amf0(ps)),
                    Err(x) => Err(Value::Amf0(x)),
                },
            },
            Value::Amf3(x) => match x.try_into_pairs() {
                Ok(ps) => Ok(pairs_amf3(ps)),
                Err(x) => Err(Value::Amf3(x)),
            },
        }
    }
}

fn wrap_amf0(vs: Vec<amf0::Value>) -> (r: Vec<Value>)
    ensures
        values_of(r@) == wrap0(amf0::values_view(vs@)),
{
    proof {
        amf0::lemma_values_view(vs@);
    }
    let mut vs = vs;
    let mut r: Vec<Value> = Vec::new();
    let ghost orig = vs@;
    let mut i: usize = 0;
    while i < vs.len()
        invariant
            vs@.len() == orig.len(),
            i <= vs@.len(),
            r@.len() == i,
            forall|j: int| i <= j < vs@.len() ==> #[trigger] vs@[j] == orig[j],
            forall|j: int| 0 <= j < i ==> #[trigger] r@[j]@ == ValueModel::Amf0(orig[j]@),
        decreases vs@.len() - i,
    {
        let v = vs[i].clone();
        r.push(Value::Amf0(v));
        i += 1;
    }
    assert(values_of(r@) =~= wrap0(amf0::values_view(orig)));
    r
}

fn wrap_amf3(vs: Vec<amf3::Value>) -> (r: Vec<Value>)
    ensures
        values_of(r@) == wrap3(amf3::values_view(vs@)),
{
    proof {
        amf3::lemma_values_view(vs@);
    }
    let mut r: Vec<Value> = Vec::new();
    let mut i: usize = 0;
    while i < vs.len()
        invariant
            i <= vs@.len(),
            r@.len() == i,
            forall|j: int| 0 <= j < i ==> #[trigger] r@[j]@ == ValueModel::Amf3(vs@[j]@),
        decreases vs@.len() - i,
    {
        let v = vs[i].clone();
        r.push(Value::Amf3(v));
        i += 1;
    }
    assert(values_of(r@) =~= wrap3(amf3::values_view(vs@)));
    r
}

fn pairs_amf0(ps: Vec<Pair<String, amf0::Value>>) -> (r: Vec<(String, Value)>)
    ensures
        pairs_of(r@) == wrap_pairs0(amf0::pairs_view(ps@)),
{
    proof {
        amf0::lemma_pairs_view(ps@);
    }
    let mut r: Vec<(String, Value)> = Vec::new();
    let mut i: usize = 0;
    while i < ps.len()
        invariant
            i <= ps@.len(),
            r@.len() == i,
            forall|j: int|
                0 <= j < i ==> (#[trigger] r@[j]).0@ == ps@[j].key@ && r@[j].1@ == ValueModel::Amf0(
                    ps@[j].value@,
                ),
        decreases ps@.len() - i,
    {
        r.push((ps[i].key.clone(), Value::Amf0(ps[i].value.clone())));
        i += 1;
    }
    assert(pairs_of(r@) =~= wrap_pairs0(amf0::pairs_view(ps@)));
    r
}

fn pairs_amf3(ps: Vec<Pair<String, amf3::Value>>) -> (r: Vec<(String, Value)>)
    ensures
        pairs_of(r@) == wrap_pairs3(amf3::pairs_view(ps@)),
{
    proof {
        amf3::lemma_pairs_view(ps@);
    }
    let mut r: Vec<(String, Value)> = Vec::new();
    let mut i: usize = 0;
    while i < ps.len()
        invariant
            i <= ps@.len(),
            r@.len() == i,
            forall|j: int|
                0 <= j < i ==> (#[trigger] r@[j]).0@ == ps@[j].key@ && r@[j].1@ == ValueModel::Amf3(
                    ps@[j].value@,
                ),
        decreases ps@.len() - i,
    {
        r.push((ps[i].key.clone(), Value::Amf3(ps[i].value.clone())));
        i += 1;
    }
    assert(pairs_of(r@) =~= wrap_pairs3(amf3::pairs_view(ps@)));
    r
}

impl From<amf0::Value> for Value {
    fn from(f: amf0::Value) -> (r: Value) {
        Value::Amf0(f)
    }
}

impl vstd::std_specs::convert::FromSpecImpl<amf0::Value> for Value {
    open spec fn obeys_from_spec() -> bool {
        true
    }

    open spec fn from_spec(f: amf0::Value) -> Value {
        Value::Amf0(f)
    }
}

impl From<amf3::Value> for Value {
    fn from(f: amf3::Value) -> (r: Value) {
        Value::Amf3(f)
    }
}

impl vstd::std_specs::convert::FromSpecImpl<amf3::Value> for Value {
    open spec fn obeys_from_spec() -> bool {
        true
    }

    open spec fn from_spec(f: amf3::Value) -> Value {
        Value::Amf3(f)
    }
}

} // verus!
