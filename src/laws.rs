//! Laws that relate the decoders and encoders.
use crate::amf0;
use crate::amf3;
use crate::amf3::wire::{Tables, U29_LIMIT};
use crate::bytes::{be16, be32, be64, get16, get64, lemma_get16, lemma_get32, lemma_get64, utf8};
use crate::date::{bits_of, is_valid_date, lemma_millis_round_trip};
use crate::error::ErrorModel;
use crate::{decoded, encoded, ValueModel, Version};
use vstd::prelude::*;

verus! {

/// A reference (AMF0) to an index at or beyond the end of the table of
/// complex values is an out-of-range reference carrying that index.
pub proof fn law_amf0_out_of_range_reference(i: u16, rest: Seq<u8>, t: Seq<amf0::Model>)
    requires
        i >= t.len(),
    ensures
        amf0::wire::value_at(seq![amf0::wire::REFERENCE] + be16(i) + rest, 0, t) == Err::<
            (amf0::Model, int, Seq<amf0::Model>),
            ErrorModel,
        >(ErrorModel::OutOfRangeReference { index: i as nat }),
{
    let b = seq![amf0::wire::REFERENCE] + be16(i) + rest;
    assert(b.subrange(1, 3) =~= be16(i));
    lemma_get16(b, 1, i);
}

/// An AMF0 object whose first member refers to the object itself, the slot
/// of the table still being filled, is a circular reference.
pub proof fn law_amf0_cycle_rejected(key: Seq<char>, rest: Seq<u8>, t: Seq<amf0::Model>)
    requires
        utf8(key).len() <= 0xFFFF,
        t.len() <= 0xFFFF,
    ensures
        amf0::wire::value_at(
            seq![amf0::wire::OBJECT] + amf0::wire::short_str_bytes(key) + seq![amf0::wire::REFERENCE]
                + be16(t.len() as u16) + rest,
            0,
            t,
        ) == Err::<(amf0::Model, int, Seq<amf0::Model>), ErrorModel>(
            ErrorModel::CircularReference { index: t.len() },
        ),
{
    let k = utf8(key);
    let n = k.len() as int;
    let b = seq![amf0::wire::OBJECT] + amf0::wire::short_str_bytes(key) + seq![amf0::wire::REFERENCE]
        + be16(t.len() as u16) + rest;
    assert(b.subrange(1, 3 + n) =~= amf0::wire::short_str_bytes(key));
    assert(b[3 + n] == amf0::wire::REFERENCE);
    assert(b.subrange(4 + n, 6 + n) =~= be16(t.len() as u16));
    lemma_cycle(b, t, key);
}

proof fn lemma_cycle(b: Seq<u8>, t: Seq<amf0::Model>, key: Seq<char>)
    requires
        utf8(key).len() <= 0xFFFF,
        t.len() <= 0xFFFF,
        6 + utf8(key).len() <= b.len(),
        b[0] == amf0::wire::OBJECT,
        b.subrange(1, 3 + utf8(key).len() as int) == amf0::wire::short_str_bytes(key),
        b[3 + utf8(key).len() as int] == amf0::wire::REFERENCE,
        b.subrange(4 + utf8(key).len() as int, 6 + utf8(key).len() as int) == be16(t.len() as u16),
    ensures
        amf0::wire::value_at(b, 0, t) == Err::<(amf0::Model, int, Seq<amf0::Model>), ErrorModel>(
            ErrorModel::CircularReference { index: t.len() },
        ),
{
    let n = utf8(key).len() as int;
    let t0 = t.push(amf0::Model::Null);
    let e = ErrorModel::CircularReference { index: t.len() };
    amf0::round_trip::lemma_short_text(key, b, 1);
    lemma_get16(b, 4 + n, t.len() as u16);
    assert(t0[t.len() as int] is Null);
    assert(amf0::wire::reference_at(b, 4 + n, t0) == Err::<(amf0::Model, int, Seq<amf0::Model>), ErrorModel>(e));
    lemma_value_fails_at_reference(b, 3 + n, t0, e);
    lemma_pairs_fail_at_value(b, 1, t0, key, 3 + n, e);
    lemma_object_fails(b, t, e);
}

proof fn lemma_value_fails_at_reference(b: Seq<u8>, q: int, t: Seq<amf0::Model>, e: ErrorModel)
    requires
        0 <= q < b.len(),
        b[q] == amf0::wire::REFERENCE,
        amf0::wire::reference_at(b, q + 1, t) == Err::<(amf0::Model, int, Seq<amf0::Model>), ErrorModel>(e),
    ensures
        amf0::wire::value_at(b, q, t) == Err::<(amf0::Model, int, Seq<amf0::Model>), ErrorModel>(e),
{
}

proof fn lemma_pairs_fail_at_value(b: Seq<u8>, p: int, t: Seq<amf0::Model>, key: Seq<char>, q: int, e: ErrorModel)
    requires
        0 <= p < q < b.len(),
        b[q] != amf0::wire::OBJECT_END_MARKER,
        amf0::wire::sized_text_at(2, b, p) == Ok::<(Seq<char>, int), ErrorModel>((key, q)),
        amf0::wire::value_at(b, q, t) == Err::<(amf0::Model, int, Seq<amf0::Model>), ErrorModel>(e),
    ensures
        amf0::wire::pairs_at(b, p, t) == Err::<(Seq<(Seq<char>, amf0::Model)>, int, Seq<amf0::Model>), ErrorModel>(e),
{
}

proof fn lemma_object_fails(b: Seq<u8>, t: Seq<amf0::Model>, e: ErrorModel)
    requires
        1 <= b.len(),
        b[0] == amf0::wire::OBJECT,
        amf0::wire::pairs_at(b, 1, t.push(amf0::Model::Null)) == Err::<(Seq<(Seq<char>, amf0::Model)>, int, Seq<amf0::Model>), ErrorModel>(e),
    ensures
        amf0::wire::value_at(b, 0, t) == Err::<(amf0::Model, int, Seq<amf0::Model>), ErrorModel>(e),
{
    assert(amf0::wire::payload_at(amf0::wire::OBJECT, b, 1, t.push(amf0::Model::Null)) == Err::<(amf0::Model, int, Seq<amf0::Model>), ErrorModel>(e));
    assert(amf0::wire::literal_at(amf0::wire::OBJECT, b, 1, t) == Err::<(amf0::Model, int, Seq<amf0::Model>), ErrorModel>(e));
}

/// An AMF0 date with a non-zero time zone fails with that offset, whatever
/// its milliseconds.
pub proof fn law_amf0_date_nonzero_time_zone(millis: u64, offset: u16, rest: Seq<u8>, t: Seq<amf0::Model>)
    requires
        offset != 0,
    ensures
        amf0::wire::value_at(seq![amf0::wire::DATE] + be64(millis) + be16(offset) + rest, 0, t)
            == Err::<(amf0::Model, int, Seq<amf0::Model>), ErrorModel>(
            ErrorModel::NonZeroTimeZone { offset: #[verifier::truncate] (offset as i16) },
        ),
{
    let b = seq![amf0::wire::DATE] + be64(millis) + be16(offset) + rest;
    assert(b.subrange(9, 11) =~= be16(offset));
    lemma_get16(b, 9, offset);
}

/// An AMF0 date with a zero time zone whose milliseconds are negative,
/// infinite or NaN fails with those milliseconds.
pub proof fn law_amf0_date_invalid(millis: u64, rest: Seq<u8>, t: Seq<amf0::Model>)
    requires
        !is_valid_date(millis),
    ensures
        amf0::wire::value_at(seq![amf0::wire::DATE] + be64(millis) + be16(0) + rest, 0, t) == Err::<
            (amf0::Model, int, Seq<amf0::Model>),
            ErrorModel,
        >(ErrorModel::InvalidDate { millis }),
{
    let b = seq![amf0::wire::DATE] + be64(millis) + be16(0) + rest;
    assert(b.subrange(9, 11) =~= be16(0));
    lemma_get16(b, 9, 0);
    assert(b.subrange(1, 9) =~= be64(millis));
    lemma_get64(b, 1, millis);
}

/// An AMF0 date of whole milliseconds below 2^53, written as its binary64
/// with a zero time zone, decodes to exactly those milliseconds.
pub proof fn law_amf0_date_exact(millis: u64, rest: Seq<u8>, t: Seq<amf0::Model>)
    requires
        millis < 0x20_0000_0000_0000,
    ensures
        amf0::wire::value_at(seq![amf0::wire::DATE] + be64(bits_of(millis)) + be16(0) + rest, 0, t)
            == Ok::<(amf0::Model, int, Seq<amf0::Model>), ErrorModel>(
            (amf0::Model::Date { unix_time: millis }, 11, t),
        ),
{
    let bits = bits_of(millis);
    let b = seq![amf0::wire::DATE] + be64(bits) + be16(0) + rest;
    assert(b.subrange(9, 11) =~= be16(0));
    lemma_get16(b, 9, 0);
    assert(b.subrange(1, 9) =~= be64(bits));
    lemma_get64(b, 1, bits);
    lemma_millis_round_trip(millis);
}

/// An AMF0 stream that begins with a byte that is no AMF0 marker fails with
/// an unknown-marker error carrying that byte.
pub proof fn law_amf0_unknown_marker(m: u8, rest: Seq<u8>, t: Seq<amf0::Model>)
    requires
        m > amf0::wire::AVMPLUS_OBJECT,
    ensures
        amf0::wire::value_at(seq![m] + rest, 0, t) == Err::<(amf0::Model, int, Seq<amf0::Model>), ErrorModel>(
            ErrorModel::Unknown { marker: m },
        ),
{
    assert((seq![m] + rest)[0] == m);
}

/// An AMF3 stream that begins with a byte that is no AMF3 marker fails with
/// an unknown-marker error carrying that byte.
pub proof fn law_amf3_unknown_marker(m: u8, rest: Seq<u8>, t: Tables)
    requires
        m > amf3::wire::DICTIONARY,
    ensures
        amf3::wire::value_at(seq![m] + rest, 0, t) == Err::<(amf3::Model, int, Tables), ErrorModel>(
            ErrorModel::Unknown { marker: m },
        ),
{
    assert((seq![m] + rest)[0] == m);
}

/// The encoder accepts exactly the AMF3 integers in [-2^28, 2^28 - 1].
pub proof fn law_amf3_integer_domain(i: i32)
    ensures
        amf3::wire::encodable(amf3::Model::Integer(i)) <==> -0x1000_0000 <= i <= 0x0FFF_FFFF,
{
}

/// Decoding the AMF0 encoding of a value gives the value back, for every
/// value that the encoder accepts whose dates lie below 2^53 milliseconds
/// and whose embedded AMF3 values are of the kinds that
/// `law_amf3_round_trip` covers.
pub proof fn law_amf0_round_trip(v: amf0::Model)
    requires
        amf0::wire::encodable(v),
        amf0::round_trip::round_trips(v),
    ensures
        decoded(encoded(ValueModel::Amf0(v)), Version::Amf0) == Ok::<ValueModel, ErrorModel>(
            ValueModel::Amf0(v),
        ),
{
    let e = amf0::wire::enc(v);
    assert(e.subrange(0, e.len() as int) =~= e);
    amf0::round_trip::lemma_value_round_trip(v, e, 0, Seq::empty());
}

/// Decoding the AMF3 encoding of a value gives the value back, for the
/// values that `amf3::round_trip::round_trips` describes: undefined, null,
/// booleans, 29-bit integers, doubles, strings and XML texts, dates below
/// 2^53 milliseconds, byte arrays, vectors of numbers, and arrays,
/// dictionaries and object vectors of these, with non-empty associative keys
/// and no element type named `*`.
pub proof fn law_amf3_round_trip(v: amf3::Model)
    requires
        amf3::round_trip::round_trips(v),
    ensures
        decoded(encoded(ValueModel::Amf3(v)), Version::Amf3) == Ok::<ValueModel, ErrorModel>(
            ValueModel::Amf3(v),
        ),
{
    let e = amf3::wire::enc(v);
    assert(e.subrange(0, e.len() as int) =~= e);
    amf3::round_trip::lemma_value_round_trip(v, e, 0, Tables::empty());
}

/// Decoding any proper prefix of the AMF0 encoding of a value (the encoding
/// without its last byte, for one) fails with an unexpected end of input, for
/// the values that `law_amf0_round_trip` covers.
pub proof fn law_amf0_truncated(v: amf0::Model, n: nat)
    requires
        amf0::wire::encodable(v),
        amf0::round_trip::round_trips(v),
        n < amf0::wire::enc(v).len(),
    ensures
        decoded(encoded(ValueModel::Amf0(v)).subrange(0, n as int), Version::Amf0) == Err::<
            ValueModel,
            ErrorModel,
        >(ErrorModel::UnexpectedEof),
{
    let e = amf0::wire::enc(v);
    let b = e.subrange(0, n as int);
    assert(b.subrange(0, b.len() as int) =~= e.subrange(0, b.len() - 0));
    amf0::truncation::lemma_value_cut(v, b, 0, Seq::empty());
}

/// Decoding any proper prefix of the AMF3 encoding of a value fails with an
/// unexpected end of input, for the values that `law_amf3_round_trip`
/// covers.
pub proof fn law_amf3_truncated(v: amf3::Model, n: nat)
    requires
        amf3::round_trip::round_trips(v),
        n < amf3::wire::enc(v).len(),
    ensures
        decoded(encoded(ValueModel::Amf3(v)).subrange(0, n as int), Version::Amf3) == Err::<
            ValueModel,
            ErrorModel,
        >(ErrorModel::UnexpectedEof),
{
    let e = amf3::wire::enc(v);
    let b = e.subrange(0, n as int);
    assert(b.subrange(0, b.len() as int) =~= e.subrange(0, b.len() - 0));
    amf3::truncation::lemma_value_cut(v, b, 0, Tables::empty());
}

/// A reference (AMF0) to a completed slot of the table of complex values
/// gives the value held there, a copy, and leaves the table as it is.
pub proof fn law_amf0_reference_resolves(i: u16, rest: Seq<u8>, t: Seq<amf0::Model>)
    requires
        i < t.len(),
        !(t[i as int] is Null),
    ensures
        amf0::wire::value_at(seq![amf0::wire::REFERENCE] + be16(i) + rest, 0, t) == Ok::<
            (amf0::Model, int, Seq<amf0::Model>),
            ErrorModel,
        >((t[i as int], 3, t)),
{
    let b = seq![amf0::wire::REFERENCE] + be16(i) + rest;
    assert(b.subrange(1, 3) =~= be16(i));
    lemma_get16(b, 1, i);
}

/// An AMF0 strict array takes no slot in the table of complex values: a
/// reference inside it to the next free slot is out of range.
pub proof fn law_amf0_strict_array_untracked(rest: Seq<u8>, t: Seq<amf0::Model>)
    requires
        t.len() <= 0xFFFF,
    ensures
        amf0::wire::value_at(
            seq![amf0::wire::STRICT_ARRAY] + be32(1) + seq![amf0::wire::REFERENCE] + be16(
                t.len() as u16,
            ) + rest,
            0,
            t,
        ) == Err::<(amf0::Model, int, Seq<amf0::Model>), ErrorModel>(
            ErrorModel::OutOfRangeReference { index: t.len() },
        ),
{
    let b = seq![amf0::wire::STRICT_ARRAY] + be32(1) + seq![amf0::wire::REFERENCE] + be16(
        t.len() as u16,
    ) + rest;
    assert(b.subrange(1, 5) =~= be32(1));
    lemma_get32(b, 1, 1);
    assert(b[5] == amf0::wire::REFERENCE);
    assert(b.subrange(6, 8) =~= be16(t.len() as u16));
    lemma_get16(b, 6, t.len() as u16);
    let e = Err::<(amf0::Model, int, Seq<amf0::Model>), ErrorModel>(
        ErrorModel::OutOfRangeReference { index: t.len() },
    );
    assert(amf0::wire::value_at(b, 5, t) == e);
    assert(amf0::wire::values_at(1, b, 5, t) == Err::<(Seq<amf0::Model>, int, Seq<amf0::Model>), ErrorModel>(
        ErrorModel::OutOfRangeReference { index: t.len() },
    ));
    assert(amf0::wire::strict_array_at(b, 1, t) == e);
}

/// An AMF3 complex value whose header refers to an index at or beyond the
/// end of the table of complex values is an out-of-range reference carrying
/// that index.
pub proof fn law_amf3_out_of_range_reference(m: u8, i: u32, rest: Seq<u8>, t: Tables)
    requires
        amf3::wire::XML_DOC <= m <= amf3::wire::DICTIONARY,
        i < 0x1000_0000,
        i >= t.complexes.len(),
    ensures
        amf3::wire::value_at(seq![m] + amf3::wire::u29_bytes((2 * i) as u32) + rest, 0, t) == Err::<
            (amf3::Model, int, Tables),
            ErrorModel,
        >(ErrorModel::OutOfRangeReference { index: i as nat }),
{
    lemma_amf3_reference(m, i, rest, t);
}

/// An AMF3 complex value whose header refers to a slot that still holds its
/// placeholder, one of a value being decoded around it, is a circular
/// reference.
pub proof fn law_amf3_circular_reference(m: u8, i: u32, rest: Seq<u8>, t: Tables)
    requires
        amf3::wire::XML_DOC <= m <= amf3::wire::DICTIONARY,
        i < 0x1000_0000,
        i < t.complexes.len(),
        t.complexes[i as int] is Null,
    ensures
        amf3::wire::value_at(seq![m] + amf3::wire::u29_bytes((2 * i) as u32) + rest, 0, t) == Err::<
            (amf3::Model, int, Tables),
            ErrorModel,
        >(ErrorModel::CircularReference { index: i as nat }),
{
    lemma_amf3_reference(m, i, rest, t);
}

/// An AMF3 integer is read as the 29-bit two's complement of its
/// variable-length integer: in [-2^28, 2^28 - 1].
pub proof fn law_amf3_integer_decoding(r: u32, rest: Seq<u8>, t: Tables)
    requires
        r < 0x2000_0000,
    ensures
        amf3::wire::value_at(seq![amf3::wire::INTEGER] + amf3::wire::u29_bytes(r) + rest, 0, t)
            == Ok::<(amf3::Model, int, Tables), ErrorModel>(
            (
                amf3::Model::Integer(amf3::wire::i29(r)),
                1 + amf3::wire::u29_bytes(r).len() as int,
                t,
            ),
        ),
        -0x1000_0000 <= amf3::wire::i29(r) < 0x1000_0000,
{
    let e = amf3::wire::u29_bytes(r);
    let b = seq![amf3::wire::INTEGER] + e + rest;
    assert(b.subrange(1, 1 + e.len() as int) =~= e);
    amf3::round_trip::lemma_u29_round_trip(r, b, 1);
}

proof fn lemma_amf3_reference(m: u8, i: u32, rest: Seq<u8>, t: Tables)
    requires
        amf3::wire::XML_DOC <= m <= amf3::wire::DICTIONARY,
        i < 0x1000_0000,
    ensures
        amf3::wire::value_at(seq![m] + amf3::wire::u29_bytes((2 * i) as u32) + rest, 0, t)
            == amf3::wire::complex_ref(i as nat, 1 + amf3::wire::u29_bytes((2 * i) as u32).len() as int, t),
{
    let e = amf3::wire::u29_bytes((2 * i) as u32);
    let b = seq![m] + e + rest;
    assert(b.subrange(1, 1 + e.len() as int) =~= e);
    amf3::round_trip::lemma_u29_round_trip((2 * i) as u32, b, 1);
    assert(amf3::wire::size_or_index((2 * i) as u32) == amf3::wire::SizeOrIndex::Index(i as usize));
}

} // verus!
