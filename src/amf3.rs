//! The AMF3 format: values, their mathematical model, and the wire layout.
use crate::error::{DecodeError, EncodeError};
use crate::Pair;
use self::wire::{enc, encodable, value_at, Tables};
use vstd::prelude::*;

pub mod decode;
pub mod encode;
pub mod round_trip;
pub mod truncation;
pub mod wire;

pub use self::decode::Decoder;
pub use self::encode::Encoder;


verus! {

/// AMF3 value.
///
/// A double is held as its IEEE-754 bit pattern, and a date as milliseconds
/// since the Unix epoch.
#[derive(Debug, PartialEq, PartialOrd)]
pub enum Value {
    /// The undefined value.
    Undefined,
    /// The null value.
    Null,
    /// A boolean.
    Boolean(bool),
    /// A 29-bit signed integer, widened to `i32`.
    Integer(i32),
    /// A double, as the bits of an IEEE-754 binary64.
    Double(u64),
    /// A string.
    String(String),
    /// An XML document (legacy XMLDocument type).
    XmlDocument(String),
    /// A date.
    Date {
        /// Milliseconds since the Unix epoch.
        unix_time: u64,
    },
    /// An array with an associative part and a dense part.
    Array {
        /// Entries of the associative part of the array.
        assoc_entries: Vec<Pair<String, Value>>,
        /// Entries of the dense part of the array.
        dense_entries: Vec<Value>,
    },
    /// An object.
    Object {
        /// The class name of the object; `None` for an anonymous object.
        class_name: Option<String>,
        /// Number of sealed members, which come first in `entries`.
        sealed_count: usize,
        /// Members of the object.
        entries: Vec<Pair<String, Value>>,
    },
    /// An XML value (E4X).
    Xml(String),
    /// A byte array.
    ByteArray(Vec<u8>),
    /// A vector of `i32`.
    IntVector {
        /// If `true`, this is a fixed-length vector.
        is_fixed: bool,
        /// The entries of the vector.
        entries: Vec<i32>,
    },
    /// A vector of `u32`.
    UintVector {
        /// If `true`, this is a fixed-length vector.
        is_fixed: bool,
        /// The entries of the vector.
        entries: Vec<u32>,
    },
    /// A vector of doubles, each as the bits of an IEEE-754 binary64.
    DoubleVector {
        /// If `true`, this is a fixed-length vector.
        is_fixed: bool,
        /// The entries of the vector.
        entries: Vec<u64>,
    },
    /// A vector of values.
    ObjectVector {
        /// The base type name of the entries; `None` means any type.
        class_name: Option<String>,
        /// If `true`, this is a fixed-length vector.
        is_fixed: bool,
        /// The entries of the vector.
        entries: Vec<Value>,
    },
    /// A dictionary whose keys are values.
    Dictionary {
        /// If `true`, the keys are weakly referenced.
        is_weak: bool,
        /// The entries of the dictionary.
        entries: Vec<Pair<Value, Value>>,
    },
}

/// The mathematical model of an AMF3 value: strings as character sequences,
/// vectors as sequences.
pub enum Model {
    Undefined,
    Null,
    Boolean(bool),
    Integer(i32),
    Double(u64),
    String(Seq<char>),
    XmlDocument(Seq<char>),
    Date { unix_time: u64 },
    Array { assoc_entries: Seq<(Seq<char>, Model)>, dense_entries: Seq<Model> },
    Object { class_name: Option<Seq<char>>, sealed_count: nat, entries: Seq<(Seq<char>, Model)> },
    Xml(Seq<char>),
    ByteArray(Seq<u8>),
    IntVector { is_fixed: bool, entries: Seq<i32> },
    UintVector { is_fixed: bool, entries: Seq<u32> },
    DoubleVector { is_fixed: bool, entries: Seq<u64> },
    ObjectVector { class_name: Option<Seq<char>>, is_fixed: bool, entries: Seq<Model> },
    Dictionary { is_weak: bool, entries: Seq<(Model, Model)> },
}

pub open spec fn opt_str_view(s: Option<String>) -> Option<Seq<char>> {
    match s {
        Some(x) => Some(x@),
        None => None,
    }
}

pub open spec fn values_view(s: Seq<Value>) -> Seq<Model>
    decreases s,
{
    if s.len() == 0 {
        Seq::empty()
    } else {
        values_view(s.drop_last()).push(s.last().view())
    }
}

pub open spec fn pairs_view(s: Seq<Pair<String, Value>>) -> Seq<(Seq<char>, Model)>
    decreases s,
{
    if s.len() == 0 {
        Seq::empty()
    } else {
        pairs_view(s.drop_last()).push((s.last().key@, s.last().value.view()))
    }
}

pub open spec fn dict_view(s: Seq<Pair<Value, Value>>) -> Seq<(Model, Model)>
    decreases s,
{
    if s.len() == 0 {
        Seq::empty()
    } else {
        dict_view(s.drop_last()).push((s.last().key.view(), s.last().value.view()))
    }
}

impl View for Value {
    type V = Model;

    open spec fn view(&self) -> Model
        decreases self,
    {
        match self {
            Value::Undefined => Model::Undefined,
            Value::Null => Model::Null,
            Value::Boolean(b) => Model::Boolean(*b),
            Value::Integer(i) => Model::Integer(*i),
            Value::Double(d) => Model::Double(*d),
            Value::String(s) => Model::String(s@),
            Value::XmlDocument(s) => Model::XmlDocument(s@),
            Value::Date { unix_time } => Model::Date { unix_time: *unix_time },
            Value::Array { assoc_entries, dense_entries } => Model::Array {
                assoc_entries: pairs_view(assoc_entries@),
                dense_entries: values_view(dense_entries@),
            },
            Value::Object { class_name, sealed_count, entries } => Model::Object {
                class_name: opt_str_view(*class_name),
                sealed_count: *sealed_count as nat,
                entries: pairs_view(entries@),
            },
            Value::Xml(s) => Model::Xml(s@),
            Value::ByteArray(b) => Model::ByteArray(b@),
            Value::IntVector { is_fixed, entries } => Model::IntVector {
                is_fixed: *is_fixed,
                entries: entries@,
            },
            Value::UintVector { is_fixed, entries } => Model::UintVector {
                is_fixed: *is_fixed,
                entries: entries@,
            },
            Value::DoubleVector { is_fixed, entries } => Model::DoubleVector {
                is_fixed: *is_fixed,
                entries: entries@,
            },
            Value::ObjectVector { class_name, is_fixed, entries } => Model::ObjectVector {
                class_name: opt_str_view(*class_name),
                is_fixed: *is_fixed,
                entries: values_view(entries@),
            },
            Value::Dictionary { is_weak, entries } => Model::Dictionary {
                is_weak: *is_weak,
                entries: dict_view(entries@),
            },
        }
    }
}

pub proof fn lemma_values_view(s: Seq<Value>)
    ensures
        values_view(s).len() == s.len(),
        forall|i: int| 0 <= i < s.len() ==> #[trigger] values_view(s)[i] == s[i]@,
    decreases s.len(),
{
    if s.len() > 0 {
        lemma_values_view(s.drop_last());
        assert(values_view(s) == values_view(s.drop_last()).push(s.last()@));
        assert forall|i: int| 0 <= i < s.len() - 1 implies s.drop_last()[i] == s[i] by {}
    }
}

pub proof fn lemma_pairs_view(s: Seq<Pair<String, Value>>)
    ensures
        pairs_view(s).len() == s.len(),
        forall|i: int| 0 <= i < s.len() ==> #[trigger] pairs_view(s)[i] == (s[i].key@, s[i].value@),
    decreases s.len(),
{
    if s.len() > 0 {
        lemma_pairs_view(s.drop_last());
        assert(pairs_view(s) == pairs_view(s.drop_last()).push((s.last().key@, s.last().value@)));
        assert forall|i: int| 0 <= i < s.len() - 1 implies s.drop_last()[i] == s[i] by {}
    }
}

pub proof fn lemma_dict_view(s: Seq<Pair<Value, Value>>)
    ensures
        dict_view(s).len() == s.len(),
        forall|i: int| 0 <= i < s.len() ==> #[trigger] dict_view(s)[i] == (s[i].key@, s[i].value@),
    decreases s.len(),
{
    if s.len() > 0 {
        lemma_dict_view(s.drop_last());
        assert(dict_view(s) == dict_view(s.drop_last()).push((s.last().key@, s.last().value@)));
        assert forall|i: int| 0 <= i < s.len() - 1 implies s.drop_last()[i] == s[i] by {}
    }
}

fn copy_opt_str(s: &Option<String>) -> (r: Option<String>)
    ensures
        opt_str_view(r) == opt_str_view(*s),
{
    match s {
        Some(x) => Some(x.clone()),
        None => None,
    }
}

fn copy_values(s: &Vec<Value>) -> (r: Vec<Value>)
    ensures
        values_view(r@) == values_view(s@),
    decreases s,
{
    let mut r: Vec<Value> = Vec::new();
    let mut i: usize = 0;
    while i < s.len()
        invariant
            i <= s.len(),
            values_view(r@) == values_view(s@.subrange(0, i as int)),
        decreases s.len() - i,
    {
        assert(decreases_to!(s => s@[i as int]));
        let v = s[i].clone();
        proof {
            assert(s@.subrange(0, i + 1).drop_last() == s@.subrange(0, i as int));
            assert(r@.push(v).drop_last() == r@);
        }
        r.push(v);
        i += 1;
    }
    assert(s@.subrange(0, i as int) == s@);
    r
}

fn copy_pairs(s: &Vec<Pair<String, Value>>) -> (r: Vec<Pair<String, Value>>)
    ensures
        pairs_view(r@) == pairs_view(s@),
    decreases s,
{
    let mut r: Vec<Pair<String, Value>> = Vec::new();
    let mut i: usize = 0;
    while i < s.len()
        invariant
            i <= s.len(),
            pairs_view(r@) == pairs_view(s@.subrange(0, i as int)),
        decreases s.len() - i,
    {
        assert(decreases_to!(s => s@[i as int]));
        let p = Pair { key: s[i].key.clone(), value: s[i].value.clone() };
        proof {
            assert(s@.subrange(0, i + 1).drop_last() == s@.subrange(0, i as int));
            assert(r@.push(p).drop_last() == r@);
        }
        r.push(p);
        i += 1;
    }
    assert(s@.subrange(0, i as int) == s@);
    r
}

fn copy_dict(s: &Vec<Pair<Value, Value>>) -> (r: Vec<Pair<Value, Value>>)
    ensures
        dict_view(r@) == dict_view(s@),
    decreases s,
{
    let mut r: Vec<Pair<Value, Value>> = Vec::new();
    let mut i: usize = 0;
    while i < s.len()
        invariant
            i <= s.len(),
            dict_view(r@) == dict_view(s@.subrange(0, i as int)),
        decreases s.len() - i,
    {
        assert(decreases_to!(s => s@[i as int]));
        let p = Pair { key: s[i].key.clone(), value: s[i].value.clone() };
        proof {
            assert(s@.subrange(0, i + 1).drop_last() == s@.subrange(0, i as int));
            assert(r@.push(p).drop_last() == r@);
        }
        r.push(p);
        i += 1;
    }
    assert(s@.subrange(0, i as int) == s@);
    r
}

impl Clone for Value {
    /// A deep copy: the copy has the same model.
    fn clone(&self) -> (r: Self)
        ensures
            r@ == self@,
        decreases self,
    {
        match self {
            Value::Undefined => Value::Undefined,
            Value::Null => Value::Null,
            Value::Boolean(b) => Value::Boolean(*b),
            Value::Integer(i) => Value::Integer(*i),
            Value::Double(d) => Value::Double(*d),
            Value::String(s) => Value::String(s.clone()),
            Value::XmlDocument(s) => Value::XmlDocument(s.clone()),
            Value::Date { unix_time } => Value::Date { unix_time: *unix_time },
            Value::Array { assoc_entries, dense_entries } => Value::Array {
                assoc_entries: copy_pairs(assoc_entries),
                dense_entries: copy_values(dense_entries),
            },
            Value::Object { class_name, sealed_count, entries } => Value::Object {
                class_name: copy_opt_str(class_name),
                sealed_count: *sealed_count,
                entries: copy_pairs(entries),
            },
            Value::Xml(s) => Value::Xml(s.clone()),
            Value::ByteArray(b) => Value::ByteArray(b.clone()),
            Value::IntVector { is_fixed, entries } => Value::IntVector {
                is_fixed: *is_fixed,
                entries: entries.clone(),
            },
            Value::UintVector { is_fixed, entries } => Value::UintVector {
                is_fixed: *is_fixed,
                entries: entries.clone(),
            },
            Value::DoubleVector { is_fixed, entries } => Value::DoubleVector {
                is_fixed: *is_fixed,
                entries: entries.clone(),
            },
            Value::ObjectVector { class_name, is_fixed, entries } => Value::ObjectVector {
                class_name: copy_opt_str(class_name),
                is_fixed: *is_fixed,
                entries: copy_values(entries),
            },
            Value::Dictionary { is_weak, entries } => Value::Dictionary {
                is_weak: *is_weak,
                entries: copy_dict(entries),
            },
        }
    }
}

/// The values that a dense array or a vector holds; an unsigned integer
/// becomes a double.
pub open spec fn contained_values(m: Model) -> Option<Seq<Model>> {
    match m {
        Model::Array { dense_entries, .. } => Some(dense_entries),
        Model::ObjectVector { entries, .. } => Some(entries),
        Model::IntVector { entries, .. } => Some(entries.map_values(|i: i32| Model::Integer(i))),
        Model::UintVector { entries, .. } => Some(
            entries.map_values(|u: u32| Model::Double(crate::date::bits_of(u as u64))),
        ),
        Model::DoubleVector { entries, .. } => Some(entries.map_values(|d: u64| Model::Double(d))),
        _ => None,
    }
}

/// The key-value pairs of an array's associative part or of an object.
pub open spec fn contained_pairs(m: Model) -> Option<Seq<(Seq<char>, Model)>> {
    match m {
        Model::Array { assoc_entries, .. } => Some(assoc_entries),
        Model::Object { entries, .. } => Some(entries),
        _ => None,
    }
}

/// The text of a string, XML document or XML value.
pub open spec fn text_of(m: Model) -> Option<Seq<char>> {
    match m {
        Model::String(s) | Model::XmlDocument(s) | Model::Xml(s) => Some(s),
        _ => None,
    }
}

impl Value {
    /// Reads an AMF3 encoded value from the start of `bytes`.
    ///
    /// Values that the input shares by reference are copied, and a circular
    /// reference is an error.
    pub fn read_from(bytes: &[u8]) -> (r: Result<Value, DecodeError>)
        ensures
            match value_at(bytes@, 0, Tables::empty()) {
                Ok((v, _, _)) => r is Ok && r->Ok_0@ == v,
                Err(e) => r is Err && r->Err_0@ == e,
            },
    {
        match decode::decode_bytes(bytes) {
            Ok((v, _)) => Ok(v),
            Err(e) => Err(e),
        }
    }

    /// Appends the AMF3 encoding of this value to `out`; fails, writing
    /// nothing, where the value is not encodable.
    pub fn write_to(&self, out: &mut Vec<u8>) -> (r: Result<(), EncodeError>)
        ensures
            r is Ok <==> encodable(self@),
            r is Ok ==> final(out)@ == old(out)@ + enc(self@),
            r is Err ==> final(out)@ == old(out)@,
    {
        let mut buf: Vec<u8> = Vec::new();
        std::mem::swap(&mut buf, out);
        let mut encoder = Encoder::new(buf);
        let r = encoder.encode(self);
        let mut written = encoder.into_inner();
        std::mem::swap(&mut written, out);
        r
    }

    /// The text of a string, XML document or XML value.
    pub fn try_as_str(&self) -> (r: Option<&str>)
        ensures
            match text_of(self@) {
                Some(s) => r is Some && r->Some_0@ == s,
                None => r is None,
            },
    {
        match self {
            Value::String(x) => Some(x.as_str()),
            Value::XmlDocument(x) => Some(x.as_str()),
            Value::Xml(x) => Some(x.as_str()),
            _ => None,
        }
    }

    /// The contained values of a dense array or a vector; other values come
    /// back unchanged as the error. An unsigned integer becomes a double.
    pub fn try_into_values(self) -> (r: Result<Vec<Value>, Value>)
        ensures
            match contained_values(self@) {
                Some(vs) => r is Ok && values_view(r->Ok_0@) == vs,
                None => r is Err && r->Err_0@ == self@,
            },
    {
        match self {
            Value::Array { dense_entries, .. } => Ok(dense_entries),
            Value::ObjectVector { entries, .. } => Ok(entries),
            Value::IntVector { entries, .. } => {
                let mut r: Vec<Value> = Vec::new();
                let mut i: usize = 0;
                while i < entries.len()
                    invariant
                        i <= entries@.len(),
                        values_view(r@) == entries@.subrange(0, i as int).map_values(
                            |i: i32| Model::Integer(i),
                        ),
                    decreases entries@.len() - i,
                {
                    let ghost before = r@;
                    r.push(Value::Integer(entries[i]));
                    assert(r@.drop_last() == before);
                    assert(r@.last()@ == Model::Integer(entries@[i as int]));
                    assert(values_view(r@) == values_view(before).push(Model::Integer(entries@[i as int])));
                    i += 1;
                    assert(values_view(r@) =~= entries@.subrange(0, i as int).map_values(
                        |i: i32| Model::Integer(i),
                    ));
                }
                assert(entries@.subrange(0, i as int) == entries@);
                Ok(r)
            },
            Value::UintVector { entries, .. } => {
                let mut r: Vec<Value> = Vec::new();
                let mut i: usize = 0;
                while i < entries.len()
                    invariant
                        i <= entries@.len(),
                        values_view(r@) == entries@.subrange(0, i as int).map_values(
                            |u: u32| Model::Double(crate::date::bits_of(u as u64)),
                        ),
                    decreases entries@.len() - i,
                {
                    let ghost before = r@;
                    r.push(Value::Double(crate::date::bits_from_millis(entries[i] as u64)));
                    assert(r@.drop_last() == before);
                    assert(r@.last()@ == Model::Double(crate::date::bits_of(entries@[i as int] as u64)));
                    assert(values_view(r@) == values_view(before).push(Model::Double(crate::date::bits_of(entries@[i as int] as u64))));
                    i += 1;
                    assert(values_view(r@) =~= entries@.subrange(0, i as int).map_values(
                        |u: u32| Model::Double(crate::date::bits_of(u as u64)),
                    ));
                }
                assert(entries@.subrange(0, i as int) == entries@);
                Ok(r)
            },
            Value::DoubleVector { entries, .. } => {
                let mut r: Vec<Value> = Vec::new();
                let mut i: usize = 0;
                while i < entries.len()
                    invariant
                        i <= entries@.len(),
                        values_view(r@) == entries@.subrange(0, i as int).map_values(
                            |d: u64| Model::Double(d),
                        ),
                    decreases entries@.len() - i,
                {
                    let ghost before = r@;
                    r.push(Value::Double(entries[i]));
                    assert(r@.drop_last() == before);
                    assert(r@.last()@ == Model::Double(entries@[i as int]));
                    assert(values_view(r@) == values_view(before).push(Model::Double(entries@[i as int])));
                    i += 1;
                    assert(values_view(r@) =~= entries@.subrange(0, i as int).map_values(
                        |d: u64| Model::Double(d),
                    ));
                }
                assert(entries@.subrange(0, i as int) == entries@);
                Ok(r)
            },
            _ => Err(self),
        }
    }

    /// The key-value pairs of an array's associative part or of an object;
    /// other values come back unchanged as the error.
    pub fn try_into_pairs(self) -> (r: Result<Vec<Pair<String, Value>>, Value>)
        ensures
            match contained_pairs(self@) {
                Some(ps) => r is Ok && pairs_view(r->Ok_0@) == ps,
                None => r is Err && r->Err_0@ == self@,
            },
    {
        match self {
            Value::Array { assoc_entries, .. } => Ok(assoc_entries),
            Value::Object { entries, .. } => Ok(entries),
            _ => Err(self),
        }
    }
}

} // verus!
