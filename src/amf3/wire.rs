//! The AMF3 wire format, stated as spec functions: what decoding reads from
//! a byte sequence and what encoding writes.
use super::{Model, values_view, pairs_view, dict_view};
use crate::bytes::{be32, be64, get32, get64, utf8};
use crate::date::{bits_of, is_valid_date, millis_of};
use crate::error::ErrorModel;
use vstd::prelude::*;
use vstd::utf8::{decode_utf8, valid_utf8};

verus! {

pub const UNDEFINED: u8 = 0x00;
pub const NULL: u8 = 0x01;
pub const FALSE: u8 = 0x02;
pub const TRUE: u8 = 0x03;
pub const INTEGER: u8 = 0x04;
pub const DOUBLE: u8 = 0x05;
pub const STRING: u8 = 0x06;
pub const XML_DOC: u8 = 0x07;
pub const DATE: u8 = 0x08;
pub const ARRAY: u8 = 0x09;
pub const OBJECT: u8 = 0x0A;
pub const XML: u8 = 0x0B;
pub const BYTE_ARRAY: u8 = 0x0C;
pub const VECTOR_INT: u8 = 0x0D;
pub const VECTOR_UINT: u8 = 0x0E;
pub const VECTOR_DOUBLE: u8 = 0x0F;
pub const VECTOR_OBJECT: u8 = 0x10;
pub const DICTIONARY: u8 = 0x11;

/// The largest value of the variable-length integer, plus one.
pub const U29_LIMIT: u32 = 0x2000_0000;

/// The largest length or count, plus one.
pub const SIZE_LIMIT: usize = 0x1000_0000;

/// A variable-length integer read as a length (low bit 1) or as a reference
/// into a table (low bit 0); the remaining bits are the length or the index.
#[derive(Debug, Clone, Copy, PartialEq, Eq)]
pub enum SizeOrIndex {
    Size(usize),
    Index(usize),
}

/// The model of a trait: the shape shared by objects of one class.
pub struct TraitModel {
    pub class_name: Option<Seq<char>>,
    pub is_dynamic: bool,
    pub fields: Seq<Seq<char>>,
}

/// The three reference tables of a decoder.
pub struct Tables {
    pub strings: Seq<Seq<char>>,
    pub traits: Seq<TraitModel>,
    pub complexes: Seq<Model>,
}

impl Tables {
    pub open spec fn empty() -> Tables {
        Tables { strings: Seq::empty(), traits: Seq::empty(), complexes: Seq::empty() }
    }

    /// Each table only grows.
    pub open spec fn extends(self, old: Tables) -> bool {
        &&& self.strings.len() >= old.strings.len()
        &&& self.traits.len() >= old.traits.len()
        &&& self.complexes.len() >= old.complexes.len()
    }
}

/// What a decoding step yields: a result, the next position, the tables.
pub type Step<T> = Result<(T, int, Tables), ErrorModel>;

// ---------------------------------------------------------------- decoding

/// The variable-length integer at `p`: three bytes of seven bits each with a
/// continuation flag, then at most one byte of eight bits.
#[verifier::opaque]
pub open spec fn u29_at(b: Seq<u8>, p: int) -> Result<(u32, int), ErrorModel> {
    if p < 0 || p >= b.len() {
        Err(ErrorModel::UnexpectedEof)
    } else if b[p] < 0x80 {
        Ok((b[p] as u32, p + 1))
    } else if p + 1 >= b.len() {
        Err(ErrorModel::UnexpectedEof)
    } else {
        let n1 = (((b[p] & 0x7F) as u32) << 7) | ((b[p + 1] & 0x7F) as u32);
        if b[p + 1] < 0x80 {
            Ok((n1, p + 2))
        } else if p + 2 >= b.len() {
            Err(ErrorModel::UnexpectedEof)
        } else {
            let n2 = (n1 << 7) | ((b[p + 2] & 0x7F) as u32);
            if b[p + 2] < 0x80 {
                Ok((n2, p + 3))
            } else if p + 3 >= b.len() {
                Err(ErrorModel::UnexpectedEof)
            } else {
                Ok(((n2 << 8) | (b[p + 3] as u32), p + 4))
            }
        }
    }
}

/// A 29-bit two's-complement integer.
pub open spec fn i29(u: u32) -> i32 {
    if u >= 0x1000_0000 {
        (u - 0x2000_0000) as i32
    } else {
        u as i32
    }
}

pub open spec fn size_or_index(u: u32) -> SizeOrIndex {
    if u % 2 == 0 {
        SizeOrIndex::Index((u / 2) as usize)
    } else {
        SizeOrIndex::Size((u / 2) as usize)
    }
}

pub open spec fn sor_at(b: Seq<u8>, p: int) -> Result<(SizeOrIndex, int), ErrorModel> {
    match u29_at(b, p) {
        Ok((u, p1)) => Ok((size_or_index(u), p1)),
        Err(e) => Err(e),
    }
}

/// The text of `n` bytes at `p`.
pub open spec fn text_at(b: Seq<u8>, p: int, n: int) -> Result<(Seq<char>, int), ErrorModel> {
    if p + n > b.len() {
        Err(ErrorModel::UnexpectedEof)
    } else if !valid_utf8(b.subrange(p, p + n)) {
        Err(ErrorModel::String)
    } else {
        Ok((decode_utf8(b.subrange(p, p + n)), p + n))
    }
}

/// A string, as a literal (kept in the string table unless empty) or as a
/// reference into the string table.
pub open spec fn str_at(b: Seq<u8>, p: int, t: Tables) -> Step<Seq<char>> {
    match sor_at(b, p) {
        Err(e) => Err(e),
        Ok((SizeOrIndex::Index(i), p1)) => if i < t.strings.len() {
            Ok((t.strings[i as int], p1, t))
        } else {
            Err(ErrorModel::OutOfRangeReference { index: i as nat })
        },
        Ok((SizeOrIndex::Size(n), p1)) => match text_at(b, p1, n as int) {
            Err(e) => Err(e),
            Ok((s, p2)) => Ok(
                (
                    s,
                    p2,
                    if s.len() > 0 {
                        Tables { strings: t.strings.push(s), ..t }
                    } else {
                        t
                    },
                ),
            ),
        },
    }
}

/// `k` strings in a row.
pub open spec fn strs_at(k: nat, b: Seq<u8>, p: int, t: Tables) -> Step<Seq<Seq<char>>>
    decreases k,
{
    if k == 0 {
        Ok((Seq::empty(), p, t))
    } else {
        match str_at(b, p, t) {
            Err(e) => Err(e),
            Ok((s, p1, t1)) => match strs_at((k - 1) as nat, b, p1, t1) {
                Err(e) => Err(e),
                Ok((ss, p2, t2)) => Ok((seq![s] + ss, p2, t2)),
            },
        }
    }
}

/// The trait of an object, from the bits that follow the object's own
/// literal flag: a reference, an externalizable class, or a new trait.
pub open spec fn trait_at(u: nat, b: Seq<u8>, p: int, t: Tables) -> Step<TraitModel> {
    if u % 2 == 0 {
        let i = u / 2;
        if i < t.traits.len() {
            Ok((t.traits[i as int], p, t))
        } else {
            Err(ErrorModel::OutOfRangeReference { index: i })
        }
    } else if (u / 2) % 2 == 1 {
        match str_at(b, p, t) {
            Err(e) => Err(e),
            Ok((name, _, _)) => Err(ErrorModel::ExternalizableType { name }),
        }
    } else {
        match str_at(b, p, t) {
            Err(e) => Err(e),
            Ok((class_name, p1, t1)) => match strs_at(u / 8, b, p1, t1) {
                Err(e) => Err(e),
                Ok((fields, p2, t2)) => {
                    let tr = TraitModel {
                        class_name: if class_name.len() == 0 {
                            None
                        } else {
                            Some(class_name)
                        },
                        is_dynamic: (u / 4) % 2 == 1,
                        fields,
                    };
                    Ok((tr, p2, Tables { traits: t2.traits.push(tr), ..t2 }))
                },
            },
        }
    }
}

/// Resolves a reference into the table of complex values.
pub open spec fn complex_ref(i: nat, p: int, t: Tables) -> Step<Model> {
    if i >= t.complexes.len() {
        Err(ErrorModel::OutOfRangeReference { index: i })
    } else if t.complexes[i as int] is Null {
        Err(ErrorModel::CircularReference { index: i })
    } else {
        Ok((t.complexes[i as int], p, t))
    }
}

/// The value at `p`.
pub open spec fn value_at(b: Seq<u8>, p: int, t: Tables) -> Step<Model>
    decreases b.len() - p, 1int,
{
    if p < 0 || p >= b.len() {
        Err(ErrorModel::UnexpectedEof)
    } else {
        let m = b[p];
        if m == UNDEFINED {
            Ok((Model::Undefined, p + 1, t))
        } else if m == NULL {
            Ok((Model::Null, p + 1, t))
        } else if m == FALSE {
            Ok((Model::Boolean(false), p + 1, t))
        } else if m == TRUE {
            Ok((Model::Boolean(true), p + 1, t))
        } else if m == INTEGER {
            match u29_at(b, p + 1) {
                Err(e) => Err(e),
                Ok((u, p1)) => Ok((Model::Integer(i29(u)), p1, t)),
            }
        } else if m == DOUBLE {
            if p + 9 > b.len() {
                Err(ErrorModel::UnexpectedEof)
            } else {
                Ok((Model::Double(get64(b, p + 1)), p + 9, t))
            }
        } else if m == STRING {
            match str_at(b, p + 1, t) {
                Err(e) => Err(e),
                Ok((s, p1, t1)) => Ok((Model::String(s), p1, t1)),
            }
        } else if XML_DOC <= m <= DICTIONARY {
            complex_at(m, b, p, t)
        } else {
            Err(ErrorModel::Unknown { marker: m })
        }
    }
}

/// A complex value at `p` with marker `m`: a reference into the table of
/// complex values, or a literal whose slot is taken, holding null, before
/// its payload is read.
pub open spec fn complex_at(m: u8, b: Seq<u8>, p: int, t: Tables) -> Step<Model>
    decreases b.len() - p, 0int,
{
    match sor_at(b, p + 1) {
        Err(e) => Err(e),
        Ok((SizeOrIndex::Index(i), p1)) => complex_ref(i as nat, p1, t),
        Ok((SizeOrIndex::Size(n), p1)) => if p < p1 <= b.len() {
            literal_at(m, n as nat, b, p1, t)
        } else {
            Err(ErrorModel::UnexpectedEof)
        },
    }
}

/// A literal complex value: its slot in the table is taken, holding null,
/// while its payload is read, and then holds the value.
pub open spec fn literal_at(m: u8, n: nat, b: Seq<u8>, p: int, t: Tables) -> Step<Model>
    decreases b.len() - p, 6int,
{
    let idx = t.complexes.len() as int;
    let t0 = Tables { complexes: t.complexes.push(Model::Null), ..t };
    match payload_at(m, n, b, p, t0) {
        Err(e) => Err(e),
        Ok((v, p2, t2)) => Ok((v, p2, Tables { complexes: t2.complexes.update(idx, v), ..t2 })),
    }
}

/// `n` values in a row.
pub open spec fn values_at(n: nat, b: Seq<u8>, p: int, t: Tables) -> Step<Seq<Model>>
    decreases b.len() - p, 2int, n,
{
    if n == 0 {
        Ok((Seq::empty(), p, t))
    } else {
        match value_at(b, p, t) {
            Err(e) => Err(e),
            Ok((v, p1, t1)) => if p < p1 <= b.len() {
                match values_at((n - 1) as nat, b, p1, t1) {
                    Err(e) => Err(e),
                    Ok((vs, p2, t2)) => Ok((seq![v] + vs, p2, t2)),
                }
            } else {
                Err(ErrorModel::UnexpectedEof)
            },
        }
    }
}

/// Key-value pairs up to an empty key.
pub open spec fn pairs_at(b: Seq<u8>, p: int, t: Tables) -> Step<Seq<(Seq<char>, Model)>>
    decreases b.len() - p, 2int, 0nat,
{
    match str_at(b, p, t) {
        Err(e) => Err(e),
        Ok((k, p1, t1)) => if k.len() == 0 {
            Ok((Seq::empty(), p1, t1))
        } else if p < p1 <= b.len() {
            match value_at(b, p1, t1) {
                Err(e) => Err(e),
                Ok((v, p2, t2)) => if p1 < p2 <= b.len() {
                    match pairs_at(b, p2, t2) {
                        Err(e) => Err(e),
                        Ok((ps, p3, t3)) => Ok((seq![(k, v)] + ps, p3, t3)),
                    }
                } else {
                    Err(ErrorModel::UnexpectedEof)
                },
            }
        } else {
            Err(ErrorModel::UnexpectedEof)
        },
    }
}

/// `n` pairs of values in a row.
pub open spec fn dict_at(n: nat, b: Seq<u8>, p: int, t: Tables) -> Step<Seq<(Model, Model)>>
    decreases b.len() - p, 2int, n,
{
    if n == 0 {
        Ok((Seq::empty(), p, t))
    } else {
        match value_at(b, p, t) {
            Err(e) => Err(e),
            Ok((k, p1, t1)) => if p < p1 <= b.len() {
                match value_at(b, p1, t1) {
                    Err(e) => Err(e),
                    Ok((v, p2, t2)) => if p1 < p2 <= b.len() {
                        match dict_at((n - 1) as nat, b, p2, t2) {
                            Err(e) => Err(e),
                            Ok((ps, p3, t3)) => Ok((seq![(k, v)] + ps, p3, t3)),
                        }
                    } else {
                        Err(ErrorModel::UnexpectedEof)
                    },
                }
            } else {
                Err(ErrorModel::UnexpectedEof)
            },
        }
    }
}

/// Names paired with values, position by position.
pub open spec fn zip(names: Seq<Seq<char>>, vals: Seq<Model>) -> Seq<(Seq<char>, Model)> {
    Seq::new(names.len(), |i: int| (names[i], vals[i]))
}

/// The `n` big-endian `i32`s at `p`.
pub open spec fn i32s_at(b: Seq<u8>, p: int, n: nat) -> Seq<i32> {
    Seq::new(n, |i: int| #[verifier::truncate] (get32(b, p + 4 * i) as i32))
}

/// The `n` big-endian `u32`s at `p`.
pub open spec fn u32s_at(b: Seq<u8>, p: int, n: nat) -> Seq<u32> {
    Seq::new(n, |i: int| get32(b, p + 4 * i))
}

/// The `n` big-endian `u64`s at `p`.
pub open spec fn u64s_at(b: Seq<u8>, p: int, n: nat) -> Seq<u64> {
    Seq::new(n, |i: int| get64(b, p + 8 * i))
}

/// The payload of a complex value whose literal header gave `n`, once its
/// slot in the table of complex values is taken.
pub open spec fn payload_at(m: u8, n: nat, b: Seq<u8>, p: int, t: Tables) -> Step<Model>
    decreases b.len() - p, 5int, 0nat,
{
    if m == XML_DOC || m == XML {
        match text_at(b, p, n as int) {
            Err(e) => Err(e),
            Ok((s, p1)) => Ok(
                (if m == XML_DOC {
                    Model::XmlDocument(s)
                } else {
                    Model::Xml(s)
                }, p1, t),
            ),
        }
    } else if m == DATE {
        date_at(b, p, t)
    } else if m == ARRAY {
        array_at(n, b, p, t)
    } else if m == OBJECT {
        object_at(n, b, p, t)
    } else if m == BYTE_ARRAY {
        if p + n > b.len() {
            Err(ErrorModel::UnexpectedEof)
        } else {
            Ok((Model::ByteArray(b.subrange(p, p + n)), p + n, t))
        }
    } else if m == VECTOR_INT || m == VECTOR_UINT || m == VECTOR_DOUBLE {
        vector_at(m, n, b, p, t)
    } else if m == VECTOR_OBJECT {
        vector_object_at(n, b, p, t)
    } else {
        dictionary_at(n, b, p, t)
    }
}

/// A date: milliseconds as a binary64, which must be finite and positive.
pub open spec fn date_at(b: Seq<u8>, p: int, t: Tables) -> Step<Model> {
    if p + 8 > b.len() {
        Err(ErrorModel::UnexpectedEof)
    } else if !is_valid_date(get64(b, p)) {
        Err(ErrorModel::InvalidDate { millis: get64(b, p) })
    } else {
        Ok((Model::Date { unix_time: millis_of(get64(b, p)) }, p + 8, t))
    }
}

/// A vector of numbers: the fixed-length flag, then `n` big-endian numbers.
pub open spec fn vector_at(m: u8, n: nat, b: Seq<u8>, p: int, t: Tables) -> Step<Model> {
    let width: nat = if m == VECTOR_DOUBLE {
        8
    } else {
        4
    };
    if p + 1 + width * n > b.len() {
        Err(ErrorModel::UnexpectedEof)
    } else if m == VECTOR_INT {
        Ok(
            (
                Model::IntVector { is_fixed: b[p] != 0, entries: i32s_at(b, p + 1, n) },
                p + 1 + 4 * n,
                t,
            ),
        )
    } else if m == VECTOR_UINT {
        Ok(
            (
                Model::UintVector { is_fixed: b[p] != 0, entries: u32s_at(b, p + 1, n) },
                p + 1 + 4 * n,
                t,
            ),
        )
    } else {
        Ok(
            (
                Model::DoubleVector { is_fixed: b[p] != 0, entries: u64s_at(b, p + 1, n) },
                p + 1 + 8 * n,
                t,
            ),
        )
    }
}

/// An array: its associative part, then `n` dense values.
pub open spec fn array_at(n: nat, b: Seq<u8>, p: int, t: Tables) -> Step<Model>
    decreases b.len() - p, 4int, 0nat,
{
    match pairs_at(b, p, t) {
        Err(e) => Err(e),
        Ok((assoc, p1, t1)) => if p <= p1 <= b.len() {
            match values_at(n, b, p1, t1) {
                Err(e) => Err(e),
                Ok((dense, p2, t2)) => Ok(
                    (Model::Array { assoc_entries: assoc, dense_entries: dense }, p2, t2),
                ),
            }
        } else {
            Err(ErrorModel::UnexpectedEof)
        },
    }
}

/// An object: its trait, the values of its sealed members, then, for a
/// dynamic trait, key-value pairs up to the empty key.
pub open spec fn object_at(n: nat, b: Seq<u8>, p: int, t: Tables) -> Step<Model>
    decreases b.len() - p, 4int, 0nat,
{
    match trait_at(n, b, p, t) {
        Err(e) => Err(e),
        Ok((tr, p1, t1)) => if p <= p1 <= b.len() {
            members_at(tr, b, p1, t1)
        } else {
            Err(ErrorModel::UnexpectedEof)
        },
    }
}

/// The members of an object of trait `tr`.
pub open spec fn members_at(tr: TraitModel, b: Seq<u8>, p: int, t: Tables) -> Step<Model>
    decreases b.len() - p, 3int, 0nat,
{
    match values_at(tr.fields.len(), b, p, t) {
        Err(e) => Err(e),
        Ok((vals, p2, t2)) => {
            let sealed = zip(tr.fields, vals);
            if !tr.is_dynamic {
                Ok(
                    (
                        Model::Object {
                            class_name: tr.class_name,
                            sealed_count: tr.fields.len(),
                            entries: sealed,
                        },
                        p2,
                        t2,
                    ),
                )
            } else if p <= p2 <= b.len() {
                match pairs_at(b, p2, t2) {
                    Err(e) => Err(e),
                    Ok((dynamic, p3, t3)) => Ok(
                        (
                            Model::Object {
                                class_name: tr.class_name,
                                sealed_count: tr.fields.len(),
                                entries: sealed + dynamic,
                            },
                            p3,
                            t3,
                        ),
                    ),
                }
            } else {
                Err(ErrorModel::UnexpectedEof)
            }
        },
    }
}

/// A vector of values: the fixed-length flag, the element type name (`*`
/// for any type), then `n` values.
pub open spec fn vector_object_at(n: nat, b: Seq<u8>, p: int, t: Tables) -> Step<Model>
    decreases b.len() - p, 4int, 0nat,
{
    if p + 1 > b.len() {
        Err(ErrorModel::UnexpectedEof)
    } else {
        match str_at(b, p + 1, t) {
            Err(e) => Err(e),
            Ok((name, p1, t1)) => if p <= p1 <= b.len() {
                match values_at(n, b, p1, t1) {
                    Err(e) => Err(e),
                    Ok((vals, p2, t2)) => Ok(
                        (
                            Model::ObjectVector {
                                class_name: if name == seq!['*'] {
                                    None
                                } else {
                                    Some(name)
                                },
                                is_fixed: b[p] != 0,
                                entries: vals,
                            },
                            p2,
                            t2,
                        ),
                    ),
                }
            } else {
                Err(ErrorModel::UnexpectedEof)
            },
        }
    }
}

/// A dictionary: the weak-keys flag, then `n` pairs of values.
pub open spec fn dictionary_at(n: nat, b: Seq<u8>, p: int, t: Tables) -> Step<Model>
    decreases b.len() - p, 4int, 0nat,
{
    if p + 1 > b.len() {
        Err(ErrorModel::UnexpectedEof)
    } else {
        match dict_at(n, b, p + 1, t) {
            Err(e) => Err(e),
            Ok((entries, p1, t1)) => Ok((Model::Dictionary { is_weak: b[p] == 1, entries }, p1, t1)),
        }
    }
}

// ---------------------------------------------------------------- encoding

/// The shortest form of a variable-length integer below `U29_LIMIT`.
pub open spec fn u29_bytes(u: u32) -> Seq<u8> {
    if u < 0x80 {
        seq![u as u8]
    } else if u < 0x4000 {
        seq![((u >> 7) | 0x80) as u8, (u & 0x7F) as u8]
    } else if u < 0x20_0000 {
        seq![((u >> 14) | 0x80) as u8, (((u >> 7) & 0x7F) | 0x80) as u8, (u & 0x7F) as u8]
    } else {
        seq![
            ((u >> 22) | 0x80) as u8,
            (((u >> 15) & 0x7F) | 0x80) as u8,
            (((u >> 8) & 0x7F) | 0x80) as u8,
            (u & 0xFF) as u8,
        ]
    }
}

/// A length or count, always as a literal.
pub open spec fn size_bytes(n: nat) -> Seq<u8> {
    u29_bytes((2 * n + 1) as u32)
}

/// A string, always as a literal.
pub open spec fn str_bytes(s: Seq<char>) -> Seq<u8> {
    size_bytes(utf8(s).len()) + utf8(s)
}

/// The 29-bit two's-complement form of an integer.
pub open spec fn u29_of(i: i32) -> u32 {
    if i >= 0 {
        i as u32
    } else {
        (0x2000_0000 + i) as u32
    }
}

/// The class name of an object; an anonymous object has the empty name.
pub open spec fn class_name_bytes(n: Option<Seq<char>>) -> Seq<u8> {
    match n {
        Some(s) => str_bytes(s),
        None => str_bytes(Seq::empty()),
    }
}

/// The element type of an object vector; `*` stands for any type.
pub open spec fn type_name_bytes(n: Option<Seq<char>>) -> Seq<u8> {
    match n {
        Some(s) => str_bytes(s),
        None => seq![0x03, 0x2A],
    }
}

/// A member whose key and value the encoder accepts.
pub open spec fn member_encodable(p: (Seq<char>, Model)) -> bool {
    utf8(p.0).len() < SIZE_LIMIT && encodable(p.1)
}

/// A dictionary entry whose key and value the encoder accepts.
pub open spec fn entry_encodable(p: (Model, Model)) -> bool {
    encodable(p.0) && encodable(p.1)
}

/// The header of an object: its trait, always written out in full.
pub open spec fn trait_header(sealed_count: nat, is_dynamic: bool) -> nat {
    8 * sealed_count + (if is_dynamic {
        4nat
    } else {
        0nat
    }) + 1
}

pub open spec fn names_bytes(es: Seq<(Seq<char>, Model)>) -> Seq<u8>
    decreases es.len(),
{
    if es.len() == 0 {
        Seq::empty()
    } else {
        names_bytes(es.drop_last()) + str_bytes(es.last().0)
    }
}

pub open spec fn i32s_bytes(es: Seq<i32>) -> Seq<u8>
    decreases es.len(),
{
    if es.len() == 0 {
        Seq::empty()
    } else {
        i32s_bytes(es.drop_last()) + be32(es.last() as u32)
    }
}

pub open spec fn u32s_bytes(es: Seq<u32>) -> Seq<u8>
    decreases es.len(),
{
    if es.len() == 0 {
        Seq::empty()
    } else {
        u32s_bytes(es.drop_last()) + be32(es.last())
    }
}

pub open spec fn u64s_bytes(es: Seq<u64>) -> Seq<u8>
    decreases es.len(),
{
    if es.len() == 0 {
        Seq::empty()
    } else {
        u64s_bytes(es.drop_last()) + be64(es.last())
    }
}

/// The encoding of a value.
pub open spec fn enc(v: Model) -> Seq<u8>
    decreases v,
{
    match v {
        Model::Undefined => seq![UNDEFINED],
        Model::Null => seq![NULL],
        Model::Boolean(b) => seq![if b { TRUE } else { FALSE }],
        Model::Integer(i) => seq![INTEGER] + u29_bytes(u29_of(i)),
        Model::Double(d) => seq![DOUBLE] + be64(d),
        Model::String(s) => seq![STRING] + str_bytes(s),
        Model::XmlDocument(s) => seq![XML_DOC] + str_bytes(s),
        Model::Date { unix_time } => seq![DATE] + size_bytes(0) + be64(bits_of(unix_time)),
        Model::Array { assoc_entries, dense_entries } => seq![ARRAY] + size_bytes(
            dense_entries.len(),
        ) + enc_pair_list(assoc_entries) + str_bytes(Seq::empty()) + enc_values(dense_entries),
        Model::Object { class_name, sealed_count, entries } => {
            let sealed = if sealed_count < entries.len() {
                entries.subrange(0, sealed_count as int)
            } else {
                entries
            };
            seq![OBJECT] + size_bytes(trait_header(sealed_count, sealed_count < entries.len()))
                + class_name_bytes(class_name) + names_bytes(sealed) + enc_members(
                sealed,
            ) + if sealed_count < entries.len() {
                if sealed_count == 0 {
                    enc_pair_list(entries) + str_bytes(Seq::empty())
                } else {
                    enc_pair_list(entries.subrange(sealed_count as int, entries.len() as int))
                        + str_bytes(Seq::empty())
                }
            } else {
                Seq::empty()
            }
        },
        Model::Xml(s) => seq![XML] + str_bytes(s),
        Model::ByteArray(bs) => seq![BYTE_ARRAY] + size_bytes(bs.len()) + bs,
        Model::IntVector { is_fixed, entries } => seq![VECTOR_INT] + size_bytes(entries.len())
            + seq![is_fixed as u8] + i32s_bytes(entries),
        Model::UintVector { is_fixed, entries } => seq![VECTOR_UINT] + size_bytes(entries.len())
            + seq![is_fixed as u8] + u32s_bytes(entries),
        Model::DoubleVector { is_fixed, entries } => seq![VECTOR_DOUBLE] + size_bytes(
            entries.len(),
        ) + seq![is_fixed as u8] + u64s_bytes(entries),
        Model::ObjectVector { class_name, is_fixed, entries } => seq![VECTOR_OBJECT] + size_bytes(
            entries.len(),
        ) + seq![is_fixed as u8] + type_name_bytes(class_name) + enc_values(entries),
        Model::Dictionary { is_weak, entries } => seq![DICTIONARY] + size_bytes(entries.len())
            + seq![is_weak as u8] + enc_dict(entries),
    }
}

/// Values one after the other.
pub open spec fn enc_values(vs: Seq<Model>) -> Seq<u8>
    decreases vs,
{
    if vs.len() == 0 {
        Seq::empty()
    } else {
        enc_values(vs.drop_last()) + enc(vs.last())
    }
}

/// The values of members, one after the other, without their names.
pub open spec fn enc_members(es: Seq<(Seq<char>, Model)>) -> Seq<u8>
    decreases es,
{
    if es.len() == 0 {
        Seq::empty()
    } else {
        enc_members(es.drop_last()) + enc(es.last().1)
    }
}

pub open spec fn enc_pair_list(es: Seq<(Seq<char>, Model)>) -> Seq<u8>
    decreases es,
{
    if es.len() == 0 {
        Seq::empty()
    } else {
        enc_pair_list(es.drop_last()) + str_bytes(es.last().0) + enc(es.last().1)
    }
}

/// Key-value pairs closed by the empty key.
pub open spec fn enc_pairs(es: Seq<(Seq<char>, Model)>) -> Seq<u8> {
    enc_pair_list(es) + str_bytes(Seq::empty())
}

pub open spec fn enc_dict(es: Seq<(Model, Model)>) -> Seq<u8>
    decreases es,
{
    if es.len() == 0 {
        Seq::empty()
    } else {
        enc_dict(es.drop_last()) + enc(es.last().0) + enc(es.last().1)
    }
}

/// The values that the encoder accepts: each length, count and integer fits
/// its field, and no object claims more sealed members than it has.
pub open spec fn encodable(v: Model) -> bool
    decreases v,
{
    match v {
        Model::Integer(i) => -0x1000_0000 <= i < 0x1000_0000,
        Model::String(s) => utf8(s).len() < SIZE_LIMIT,
        Model::XmlDocument(s) => utf8(s).len() < SIZE_LIMIT,
        Model::Xml(s) => utf8(s).len() < SIZE_LIMIT,
        Model::Array { assoc_entries, dense_entries } => dense_entries.len() < SIZE_LIMIT
            && pairs_encodable(assoc_entries) && values_encodable(dense_entries),
        Model::Object { class_name, sealed_count, entries } => sealed_count <= entries.len()
            && sealed_count < 0x200_0000 && opt_name_encodable(class_name) && pairs_encodable(
            entries,
        ),
        Model::ByteArray(bs) => bs.len() < SIZE_LIMIT,
        Model::IntVector { entries, .. } => entries.len() < SIZE_LIMIT,
        Model::UintVector { entries, .. } => entries.len() < SIZE_LIMIT,
        Model::DoubleVector { entries, .. } => entries.len() < SIZE_LIMIT,
        Model::ObjectVector { class_name, entries, .. } => entries.len() < SIZE_LIMIT
            && opt_name_encodable(class_name) && values_encodable(entries),
        Model::Dictionary { entries, .. } => entries.len() < SIZE_LIMIT && dict_encodable(entries),
        _ => true,
    }
}

pub open spec fn opt_name_encodable(n: Option<Seq<char>>) -> bool {
    match n {
        Some(s) => utf8(s).len() < SIZE_LIMIT,
        None => true,
    }
}

pub open spec fn values_encodable(vs: Seq<Model>) -> bool
    decreases vs,
{
    if vs.len() == 0 {
        true
    } else {
        values_encodable(vs.drop_last()) && encodable(vs.last())
    }
}

pub open spec fn pairs_encodable(es: Seq<(Seq<char>, Model)>) -> bool
    decreases es,
{
    if es.len() == 0 {
        true
    } else {
        pairs_encodable(es.drop_last()) && utf8(es.last().0).len() < SIZE_LIMIT && encodable(
            es.last().1,
        )
    }
}

pub open spec fn dict_encodable(es: Seq<(Model, Model)>) -> bool
    decreases es,
{
    if es.len() == 0 {
        true
    } else {
        dict_encodable(es.drop_last()) && encodable(es.last().0) && encodable(es.last().1)
    }
}

} // verus!
