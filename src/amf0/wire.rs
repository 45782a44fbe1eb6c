//! The AMF0 wire format, stated as spec functions: what decoding reads from
//! a byte sequence and what encoding writes.
use super::Model;
use crate::amf3;
use crate::amf3::wire::text_at;
use crate::bytes::{be16, be32, be64, get16, get32, get64, utf8};
use crate::date::{bits_of, is_valid_date, millis_of};
use crate::error::ErrorModel;
use vstd::prelude::*;

verus! {

pub const NUMBER: u8 = 0x00;
pub const BOOLEAN: u8 = 0x01;
pub const STRING: u8 = 0x02;
pub const OBJECT: u8 = 0x03;
pub const MOVIECLIP: u8 = 0x04;
pub const NULL: u8 = 0x05;
pub const UNDEFINED: u8 = 0x06;
pub const REFERENCE: u8 = 0x07;
pub const ECMA_ARRAY: u8 = 0x08;
pub const OBJECT_END_MARKER: u8 = 0x09;
pub const STRICT_ARRAY: u8 = 0x0A;
pub const DATE: u8 = 0x0B;
pub const LONG_STRING: u8 = 0x0C;
pub const UNSUPPORTED: u8 = 0x0D;
pub const RECORDSET: u8 = 0x0E;
pub const XML_DOCUMENT: u8 = 0x0F;
pub const TYPED_OBJECT: u8 = 0x10;
pub const AVMPLUS_OBJECT: u8 = 0x11;

/// What a decoding step yields: a result, the next position, and the table
/// of complex values (objects and arrays, in the order their headers came).
pub type Step<T> = Result<(T, int, Seq<Model>), ErrorModel>;

// ---------------------------------------------------------------- decoding

/// Resolves a reference into the table of complex values; a slot that still
/// holds its null placeholder is a circular reference.
pub open spec fn reference_at(b: Seq<u8>, p: int, t: Seq<Model>) -> Step<Model> {
    if p + 2 > b.len() {
        Err(ErrorModel::UnexpectedEof)
    } else {
        let i = get16(b, p) as nat;
        if i >= t.len() {
            Err(ErrorModel::OutOfRangeReference { index: i })
        } else if t[i as int] is Null {
            Err(ErrorModel::CircularReference { index: i })
        } else {
            Ok((t[i as int], p + 2, t))
        }
    }
}

/// A date: milliseconds as a binary64, then a time zone that must be zero.
pub open spec fn date_at(b: Seq<u8>, p: int, t: Seq<Model>) -> Step<Model> {
    if p + 10 > b.len() {
        Err(ErrorModel::UnexpectedEof)
    } else if get16(b, p + 8) != 0 {
        Err(ErrorModel::NonZeroTimeZone { offset: #[verifier::truncate] (get16(b, p + 8) as i16) })
    } else if !is_valid_date(get64(b, p)) {
        Err(ErrorModel::InvalidDate { millis: get64(b, p) })
    } else {
        Ok((Model::Date { unix_time: millis_of(get64(b, p)) }, p + 10, t))
    }
}

/// Text whose byte length stands before it in `w` bytes (2 or 4).
pub open spec fn sized_text_at(w: int, b: Seq<u8>, p: int) -> Result<(Seq<char>, int), ErrorModel> {
    if p + w > b.len() {
        Err(ErrorModel::UnexpectedEof)
    } else if w == 2 {
        text_at(b, p + 2, get16(b, p) as int)
    } else {
        text_at(b, p + 4, get32(b, p) as int)
    }
}

/// The value at `p`.
pub open spec fn value_at(b: Seq<u8>, p: int, t: Seq<Model>) -> Step<Model>
    decreases b.len() - p, 0int,
{
    if p < 0 || p >= b.len() {
        Err(ErrorModel::UnexpectedEof)
    } else {
        let m = b[p];
        if m == NUMBER {
            if p + 9 > b.len() {
                Err(ErrorModel::UnexpectedEof)
            } else {
                Ok((Model::Number(get64(b, p + 1)), p + 9, t))
            }
        } else if m == BOOLEAN {
            if p + 2 > b.len() {
                Err(ErrorModel::UnexpectedEof)
            } else {
                Ok((Model::Boolean(b[p + 1] != 0), p + 2, t))
            }
        } else if m == STRING || m == LONG_STRING || m == XML_DOCUMENT {
            match sized_text_at(if m == STRING { 2 } else { 4 }, b, p + 1) {
                Err(e) => Err(e),
                Ok((s, p1)) => Ok(
                    (if m == XML_DOCUMENT {
                        Model::XmlDocument(s)
                    } else {
                        Model::String(s)
                    }, p1, t),
                ),
            }
        } else if m == OBJECT || m == ECMA_ARRAY || m == TYPED_OBJECT {
            literal_at(m, b, p + 1, t)
        } else if m == STRICT_ARRAY {
            strict_array_at(b, p + 1, t)
        } else if m == MOVIECLIP || m == UNSUPPORTED || m == RECORDSET {
            Err(ErrorModel::Unsupported { marker: m })
        } else if m == NULL {
            Ok((Model::Null, p + 1, t))
        } else if m == UNDEFINED {
            Ok((Model::Undefined, p + 1, t))
        } else if m == REFERENCE {
            reference_at(b, p + 1, t)
        } else if m == OBJECT_END_MARKER {
            Err(ErrorModel::UnexpectedObjectEnd)
        } else if m == DATE {
            date_at(b, p + 1, t)
        } else if m == AVMPLUS_OBJECT {
            match amf3::wire::value_at(b, p + 1, amf3::wire::Tables::empty()) {
                Err(e) => Err(e),
                Ok((v, p1, _)) => Ok((Model::AvmPlus(v), p1, t)),
            }
        } else {
            Err(ErrorModel::Unknown { marker: m })
        }
    }
}

/// A complex value, whose slot in the table is taken, holding null, while
/// its payload is read, and then holds the value.
pub open spec fn literal_at(m: u8, b: Seq<u8>, p: int, t: Seq<Model>) -> Step<Model>
    decreases b.len() - p, 3int,
{
    let idx = t.len() as int;
    match payload_at(m, b, p, t.push(Model::Null)) {
        Err(e) => Err(e),
        Ok((v, p2, t2)) => Ok((v, p2, t2.update(idx, v))),
    }
}

/// A strict array: a count, then that many values. It takes no slot in the
/// table of complex values.
pub open spec fn strict_array_at(b: Seq<u8>, p: int, t: Seq<Model>) -> Step<Model>
    decreases b.len() - p, 0int, 1nat,
{
    if p < 0 || p + 4 > b.len() {
        Err(ErrorModel::UnexpectedEof)
    } else {
        match values_at(get32(b, p) as nat, b, p + 4, t) {
            Err(e) => Err(e),
            Ok((entries, p1, t1)) => Ok((Model::Array { entries }, p1, t1)),
        }
    }
}

/// The payload of an object, an ECMA array or a typed object.
pub open spec fn payload_at(m: u8, b: Seq<u8>, p: int, t: Seq<Model>) -> Step<Model>
    decreases b.len() - p, 2int,
{
    if m == OBJECT {
        match pairs_at(b, p, t) {
            Err(e) => Err(e),
            Ok((entries, p1, t1)) => Ok((Model::Object { class_name: None, entries }, p1, t1)),
        }
    } else if m == ECMA_ARRAY {
        if p + 4 > b.len() {
            Err(ErrorModel::UnexpectedEof)
        } else {
            match pairs_at(b, p + 4, t) {
                Err(e) => Err(e),
                Ok((entries, p1, t1)) => Ok((Model::EcmaArray { entries }, p1, t1)),
            }
        }
    } else {
        match sized_text_at(2, b, p) {
            Err(e) => Err(e),
            Ok((name, p1)) => if p <= p1 <= b.len() {
                match pairs_at(b, p1, t) {
                    Err(e) => Err(e),
                    Ok((entries, p2, t2)) => Ok(
                        (Model::Object { class_name: Some(name), entries }, p2, t2),
                    ),
                }
            } else {
                Err(ErrorModel::UnexpectedEof)
            },
        }
    }
}

/// Key-value pairs up to the empty key followed by the object-end marker.
pub open spec fn pairs_at(b: Seq<u8>, p: int, t: Seq<Model>) -> Step<Seq<(Seq<char>, Model)>>
    decreases b.len() - p, 1int,
{
    match sized_text_at(2, b, p) {
        Err(e) => Err(e),
        Ok((k, p1)) => if !(p < p1 <= b.len()) {
            Err(ErrorModel::UnexpectedEof)
        } else if k.len() == 0 && p1 < b.len() && b[p1] == OBJECT_END_MARKER {
            Ok((Seq::empty(), p1 + 1, t))
        } else {
            match value_at(b, p1, t) {
                Err(e) => Err(e),
                Ok((v, p2, t2)) => if p1 < p2 <= b.len() {
                    match pairs_at(b, p2, t2) {
                        Err(e) => Err(e),
                        Ok((ps, p3, t3)) => Ok((seq![(k, v)] + ps, p3, t3)),
                    }
                } else {
                    Err(ErrorModel::UnexpectedEof)
                },
            }
        },
    }
}

/// `n` values in a row.
pub open spec fn values_at(n: nat, b: Seq<u8>, p: int, t: Seq<Model>) -> Step<Seq<Model>>
    decreases b.len() - p, 1int, n,
{
    if n == 0 {
        Ok((Seq::empty(), p, t))
    } else {
        match value_at(b, p, t) {
            Err(e) => Err(e),
            Ok((v, p1, t1)) => if p < p1 <= b.len() {
                match values_at((n - 1) as nat, b, p1, t1) {
                    Err(e) => Err(e),
                    Ok((vs, p2, t2)) => Ok((seq![v] + vs, p2, t2)),
                }
            } else {
                Err(ErrorModel::UnexpectedEof)
            },
        }
    }
}

// ---------------------------------------------------------------- encoding

/// A string with a 16-bit length.
pub open spec fn short_str_bytes(s: Seq<char>) -> Seq<u8> {
    be16(utf8(s).len() as u16) + utf8(s)
}

/// A string with a 32-bit length.
pub open spec fn long_str_bytes(s: Seq<char>) -> Seq<u8> {
    be32(utf8(s).len() as u32) + utf8(s)
}

/// The encoding of a value.
pub open spec fn enc(v: Model) -> Seq<u8>
    decreases v,
{
    match v {
        Model::Number(n) => seq![NUMBER] + be64(n),
        Model::Boolean(b) => seq![BOOLEAN, b as u8],
        Model::String(s) => if utf8(s).len() <= 0xFFFF {
            seq![STRING] + short_str_bytes(s)
        } else {
            seq![LONG_STRING] + long_str_bytes(s)
        },
        Model::Object { class_name, entries } => match class_name {
            Some(name) => seq![TYPED_OBJECT] + short_str_bytes(name) + enc_pair_list(entries)
                + seq![0, 0, OBJECT_END_MARKER],
            None => seq![OBJECT] + enc_pair_list(entries) + seq![0, 0, OBJECT_END_MARKER],
        },
        Model::Null => seq![NULL],
        Model::Undefined => seq![UNDEFINED],
        Model::EcmaArray { entries } => seq![ECMA_ARRAY] + be32(entries.len() as u32)
            + enc_pair_list(entries) + seq![0, 0, OBJECT_END_MARKER],
        Model::Array { entries } => seq![STRICT_ARRAY] + be32(entries.len() as u32) + enc_values(
            entries,
        ),
        Model::Date { unix_time } => seq![DATE] + be64(bits_of(unix_time)) + be16(0),
        Model::XmlDocument(s) => seq![XML_DOCUMENT] + long_str_bytes(s),
        Model::AvmPlus(x) => seq![AVMPLUS_OBJECT] + amf3::wire::enc(x),
    }
}

pub open spec fn enc_values(vs: Seq<Model>) -> Seq<u8>
    decreases vs,
{
    if vs.len() == 0 {
        Seq::empty()
    } else {
        enc_values(vs.drop_last()) + enc(vs.last())
    }
}

pub open spec fn enc_pair_list(es: Seq<(Seq<char>, Model)>) -> Seq<u8>
    decreases es,
{
    if es.len() == 0 {
        Seq::empty()
    } else {
        enc_pair_list(es.drop_last()) + short_str_bytes(es.last().0) + enc(es.last().1)
    }
}

/// Key-value pairs closed by the empty key and the object-end marker.
pub open spec fn enc_pairs(es: Seq<(Seq<char>, Model)>) -> Seq<u8> {
    enc_pair_list(es) + seq![0, 0, OBJECT_END_MARKER]
}

/// The values that the encoder accepts: each length and count fits its
/// field.
pub open spec fn encodable(v: Model) -> bool
    decreases v,
{
    match v {
        Model::String(s) => utf8(s).len() <= u32::MAX,
        Model::XmlDocument(s) => utf8(s).len() <= u32::MAX,
        Model::Object { class_name, entries } => entries.len() <= u32::MAX && match class_name {
            Some(name) => utf8(name).len() <= 0xFFFF,
            None => true,
        } && pairs_encodable(entries),
        Model::EcmaArray { entries } => entries.len() <= u32::MAX && pairs_encodable(entries),
        Model::Array { entries } => entries.len() <= u32::MAX && values_encodable(entries),
        Model::AvmPlus(x) => amf3::wire::encodable(x),
        _ => true,
    }
}

/// A member whose key and value the encoder accepts.
pub open spec fn member_encodable(p: (Seq<char>, Model)) -> bool {
    utf8(p.0).len() <= 0xFFFF && encodable(p.1)
}

pub open spec fn values_encodable(vs: Seq<Model>) -> bool
    decreases vs,
{
    if vs.len() == 0 {
        true
    } else {
        values_encodable(vs.drop_last()) && encodable(vs.last())
    }
}

pub open spec fn pairs_encodable(es: Seq<(Seq<char>, Model)>) -> bool
    decreases es,
{
    if es.len() == 0 {
        true
    } else {
        pairs_encodable(es.drop_last()) && utf8(es.last().0).len() <= 0xFFFF && encodable(
            es.last().1,
        )
    }
}

} // verus!
