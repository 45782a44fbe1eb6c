//! Decoding the encoding of an AMF0 value gives the value back.
use super::wire::{
    enc, enc_pair_list, enc_pairs, enc_values, encodable, long_str_bytes, pairs_at, pairs_encodable,
    short_str_bytes, sized_text_at, value_at, values_at, values_encodable,
};
use super::Model;
use crate::bytes::{be16, be32, be64, get32, lemma_get16, lemma_get32, lemma_get64, utf8};
use crate::date::{bits_of, lemma_millis_round_trip};
use crate::error::ErrorModel;
use vstd::prelude::*;

verus! {

/// The values whose round trip is proved: those that the encoder accepts,
/// with dates below 2^53 milliseconds (the integers that a binary64 holds
/// exactly), and whose embedded AMF3 values are of the kinds that
/// `amf3::round_trip::round_trips` covers.
pub open spec fn round_trips(v: Model) -> bool
    decreases v,
{
    match v {
        Model::Object { entries, .. } => members_round_trip(entries),
        Model::EcmaArray { entries } => members_round_trip(entries),
        Model::Array { entries } => values_round_trip(entries),
        Model::Date { unix_time } => unix_time < 0x20_0000_0000_0000,
        Model::AvmPlus(x) => crate::amf3::round_trip::round_trips(x),
        _ => true,
    }
}

pub open spec fn values_round_trip(vs: Seq<Model>) -> bool
    decreases vs,
{
    if vs.len() == 0 {
        true
    } else {
        values_round_trip(vs.drop_last()) && round_trips(vs.last())
    }
}

pub open spec fn members_round_trip(es: Seq<(Seq<char>, Model)>) -> bool
    decreases es,
{
    if es.len() == 0 {
        true
    } else {
        members_round_trip(es.drop_last()) && round_trips(es.last().1)
    }
}

/// `b` holds `e` at `p`, so it holds each part of `e` at the matching place.
proof fn lemma_holds(b: Seq<u8>, p: int, e: Seq<u8>, i: int, j: int)
    requires
        0 <= p,
        p + e.len() <= b.len(),
        b.subrange(p, p + e.len()) == e,
        0 <= i <= j <= e.len(),
    ensures
        b.subrange(p + i, p + j) == e.subrange(i, j),
{
    assert forall|k: int| 0 <= k < j - i implies b.subrange(p + i, p + j)[k] == e.subrange(i, j)[k] by {
        assert(b.subrange(p, p + e.len())[i + k] == b[p + i + k]);
    }
    assert(b.subrange(p + i, p + j) =~= e.subrange(i, j));
}

proof fn lemma_at(b: Seq<u8>, p: int, e: Seq<u8>, i: int)
    requires
        0 <= p,
        p + e.len() <= b.len(),
        b.subrange(p, p + e.len()) == e,
        0 <= i < e.len(),
    ensures
        b[p + i] == e[i],
{
    assert(b.subrange(p, p + e.len())[i] == b[p + i]);
}

/// A string written with its 16-bit length reads back as that string.
pub proof fn lemma_short_text(s: Seq<char>, b: Seq<u8>, p: int)
    requires
        utf8(s).len() <= 0xFFFF,
        0 <= p,
        p + 2 + utf8(s).len() <= b.len(),
        b.subrange(p, p + 2 + utf8(s).len()) == short_str_bytes(s),
    ensures
        sized_text_at(2, b, p) == Ok::<(Seq<char>, int), ErrorModel>((s, p + 2 + utf8(s).len())),
{
    let k = utf8(s);
    let n = k.len() as int;
    let w = short_str_bytes(s);
    lemma_holds(b, p, w, 0, 2);
    assert(w.subrange(0, 2) =~= be16(n as u16));
    lemma_get16(b, p, n as u16);
    lemma_holds(b, p, w, 2, 2 + n);
    assert(w.subrange(2, 2 + n) =~= k);
    vstd::utf8::encode_utf8_valid_utf8(s);
    vstd::utf8::encode_utf8_decode_utf8(s);
}

/// A string written with its 32-bit length reads back as that string.
pub proof fn lemma_long_text(s: Seq<char>, b: Seq<u8>, p: int)
    requires
        utf8(s).len() <= u32::MAX,
        0 <= p,
        p + 4 + utf8(s).len() <= b.len(),
        b.subrange(p, p + 4 + utf8(s).len()) == long_str_bytes(s),
    ensures
        sized_text_at(4, b, p) == Ok::<(Seq<char>, int), ErrorModel>((s, p + 4 + utf8(s).len())),
{
    let k = utf8(s);
    let n = k.len() as int;
    let w = long_str_bytes(s);
    lemma_holds(b, p, w, 0, 4);
    assert(w.subrange(0, 4) =~= be32(n as u32));
    lemma_get32(b, p, n as u32);
    lemma_holds(b, p, w, 4, 4 + n);
    assert(w.subrange(4, 4 + n) =~= k);
    vstd::utf8::encode_utf8_valid_utf8(s);
    vstd::utf8::encode_utf8_decode_utf8(s);
}

pub proof fn lemma_enc_values_front(vs: Seq<Model>)
    requires
        vs.len() > 0,
    ensures
        enc_values(vs) == enc(vs[0]) + enc_values(vs.drop_first()),
    decreases vs.len(),
{
    if vs.len() == 1 {
        assert(vs.drop_last() =~= Seq::<Model>::empty());
        assert(vs.drop_first() =~= Seq::<Model>::empty());
        assert(enc_values(vs) =~= enc(vs[0]) + enc_values(vs.drop_first()));
    } else {
        lemma_enc_values_front(vs.drop_last());
        assert(vs.drop_last().drop_first() =~= vs.drop_first().drop_last());
        assert(vs.drop_first().last() == vs.last());
        assert(enc_values(vs) =~= enc(vs[0]) + enc_values(vs.drop_first()));
    }
}

pub proof fn lemma_enc_pairs_front(es: Seq<(Seq<char>, Model)>)
    requires
        es.len() > 0,
    ensures
        enc_pair_list(es) == short_str_bytes(es[0].0) + enc(es[0].1) + enc_pair_list(es.drop_first()),
    decreases es.len(),
{
    if es.len() == 1 {
        assert(es.drop_last() =~= Seq::<(Seq<char>, Model)>::empty());
        assert(es.drop_first() =~= Seq::<(Seq<char>, Model)>::empty());
        assert(enc_pair_list(es) =~= short_str_bytes(es[0].0) + enc(es[0].1) + enc_pair_list(
            es.drop_first(),
        ));
    } else {
        lemma_enc_pairs_front(es.drop_last());
        assert(es.drop_last().drop_first() =~= es.drop_first().drop_last());
        assert(es.drop_first().last() == es.last());
        assert(enc_pair_list(es) =~= short_str_bytes(es[0].0) + enc(es[0].1) + enc_pair_list(
            es.drop_first(),
        ));
    }
}

pub proof fn lemma_values_front(vs: Seq<Model>)
    requires
        vs.len() > 0,
    ensures
        values_round_trip(vs) == (round_trips(vs[0]) && values_round_trip(vs.drop_first())),
        values_encodable(vs) == (encodable(vs[0]) && values_encodable(vs.drop_first())),
    decreases vs.len(),
{
    if vs.len() == 1 {
        assert(vs.drop_last() =~= Seq::<Model>::empty());
        assert(vs.drop_first() =~= Seq::<Model>::empty());
    } else {
        lemma_values_front(vs.drop_last());
        assert(vs.drop_last().drop_first() =~= vs.drop_first().drop_last());
        assert(vs.drop_first().last() == vs.last());
    }
}

pub proof fn lemma_pairs_front(es: Seq<(Seq<char>, Model)>)
    requires
        es.len() > 0,
    ensures
        members_round_trip(es) == (round_trips(es[0].1) && members_round_trip(es.drop_first())),
        pairs_encodable(es) == (utf8(es[0].0).len() <= 0xFFFF && encodable(es[0].1)
            && pairs_encodable(es.drop_first())),
    decreases es.len(),
{
    if es.len() == 1 {
        assert(es.drop_last() =~= Seq::<(Seq<char>, Model)>::empty());
        assert(es.drop_first() =~= Seq::<(Seq<char>, Model)>::empty());
    } else {
        lemma_pairs_front(es.drop_last());
        assert(es.drop_last().drop_first() =~= es.drop_first().drop_last());
        assert(es.drop_first().last() == es.last());
    }
}

/// No encoding begins with the object-end marker.
pub proof fn lemma_first_byte(v: Model)
    ensures
        enc(v).len() > 0,
        enc(v)[0] != super::wire::OBJECT_END_MARKER,
{
}

/// Decoding, at any position and with any table, the bytes of a value that
/// round-trips gives the value and moves past its encoding.
pub proof fn lemma_value_round_trip(v: Model, b: Seq<u8>, p: int, t: Seq<Model>)
    requires
        encodable(v),
        round_trips(v),
        0 <= p,
        p + enc(v).len() <= b.len(),
        b.subrange(p, p + enc(v).len()) == enc(v),
    ensures
        value_at(b, p, t) is Ok,
        value_at(b, p, t)->Ok_0.0 == v,
        value_at(b, p, t)->Ok_0.1 == p + enc(v).len(),
    decreases v, 2nat,
{
    match v {
        Model::Object { class_name, entries } => lemma_object_round_trip(v, b, p, t),
        Model::EcmaArray { entries } => lemma_ecma_round_trip(v, b, p, t),
        Model::Array { entries } => lemma_array_round_trip(v, b, p, t),
        Model::String(s) => lemma_string_round_trip(v, b, p, t),
        Model::XmlDocument(s) => lemma_string_round_trip(v, b, p, t),
        Model::Date { unix_time } => lemma_date_round_trip(v, b, p, t),
        Model::AvmPlus(x) => lemma_avmplus_round_trip(x, b, p, t),
        _ => lemma_scalar_round_trip(v, b, p, t),
    }
}

proof fn lemma_avmplus_round_trip(x: crate::amf3::Model, b: Seq<u8>, p: int, t: Seq<Model>)
    requires
        crate::amf3::round_trip::round_trips(x),
        0 <= p,
        p + enc(Model::AvmPlus(x)).len() <= b.len(),
        b.subrange(p, p + enc(Model::AvmPlus(x)).len()) == enc(Model::AvmPlus(x)),
    ensures
        value_at(b, p, t) is Ok,
        value_at(b, p, t)->Ok_0.0 == Model::AvmPlus(x),
        value_at(b, p, t)->Ok_0.1 == p + enc(Model::AvmPlus(x)).len(),
{
    let e = enc(Model::AvmPlus(x));
    let xe = crate::amf3::wire::enc(x);
    lemma_at(b, p, e, 0);
    lemma_holds(b, p, e, 1, e.len() as int);
    assert(e.subrange(1, e.len() as int) =~= xe);
    crate::amf3::round_trip::lemma_value_round_trip(x, b, p + 1, crate::amf3::wire::Tables::empty());
}

proof fn lemma_scalar_round_trip(v: Model, b: Seq<u8>, p: int, t: Seq<Model>)
    requires
        v is Number || v is Boolean || v is Null || v is Undefined,
        0 <= p,
        p + enc(v).len() <= b.len(),
        b.subrange(p, p + enc(v).len()) == enc(v),
    ensures
        value_at(b, p, t) == Ok::<(Model, int, Seq<Model>), ErrorModel>((v, p + enc(v).len(), t)),
{
    let e = enc(v);
    lemma_at(b, p, e, 0);
    match v {
        Model::Number(n) => lemma_number_round_trip(n, b, p, t),
        Model::Boolean(x) => {
            lemma_at(b, p, e, 1);
        },
        _ => {},
    }
}

proof fn lemma_number_round_trip(n: u64, b: Seq<u8>, p: int, t: Seq<Model>)
    requires
        0 <= p,
        p + 9 <= b.len(),
        b.subrange(p, p + 9) == enc(Model::Number(n)),
    ensures
        value_at(b, p, t) == Ok::<(Model, int, Seq<Model>), ErrorModel>((Model::Number(n), p + 9, t)),
{
    let e = enc(Model::Number(n));
    lemma_at(b, p, e, 0);
    lemma_holds(b, p, e, 1, 9);
    assert(e.subrange(1, 9) =~= be64(n));
    lemma_get64(b, p + 1, n);
}

proof fn lemma_string_round_trip(v: Model, b: Seq<u8>, p: int, t: Seq<Model>)
    requires
        v is String || v is XmlDocument,
        encodable(v),
        0 <= p,
        p + enc(v).len() <= b.len(),
        b.subrange(p, p + enc(v).len()) == enc(v),
    ensures
        value_at(b, p, t) == Ok::<(Model, int, Seq<Model>), ErrorModel>((v, p + enc(v).len(), t)),
{
    match v {
        Model::String(s) => if utf8(s).len() <= 0xFFFF {
            lemma_short_string_round_trip(s, b, p, t)
        } else {
            lemma_long_text_round_trip(v, s, b, p, t)
        },
        Model::XmlDocument(s) => lemma_long_text_round_trip(v, s, b, p, t),
        _ => {},
    }
}

proof fn lemma_short_string_round_trip(s: Seq<char>, b: Seq<u8>, p: int, t: Seq<Model>)
    requires
        utf8(s).len() <= 0xFFFF,
        0 <= p,
        p + enc(Model::String(s)).len() <= b.len(),
        b.subrange(p, p + enc(Model::String(s)).len()) == enc(Model::String(s)),
    ensures
        value_at(b, p, t) == Ok::<(Model, int, Seq<Model>), ErrorModel>(
            (Model::String(s), p + enc(Model::String(s)).len(), t),
        ),
{
    let e = enc(Model::String(s));
    let n = utf8(s).len() as int;
    assert(e == seq![super::wire::STRING] + short_str_bytes(s));
    lemma_at(b, p, e, 0);
    lemma_holds(b, p, e, 1, 3 + n);
    assert(e.subrange(1, 3 + n) =~= short_str_bytes(s));
    lemma_short_text(s, b, p + 1);
}

proof fn lemma_long_text_round_trip(v: Model, s: Seq<char>, b: Seq<u8>, p: int, t: Seq<Model>)
    requires
        v == Model::XmlDocument(s) || (v == Model::String(s) && utf8(s).len() > 0xFFFF),
        utf8(s).len() <= u32::MAX,
        0 <= p,
        p + enc(v).len() <= b.len(),
        b.subrange(p, p + enc(v).len()) == enc(v),
    ensures
        value_at(b, p, t) == Ok::<(Model, int, Seq<Model>), ErrorModel>((v, p + enc(v).len(), t)),
{
    let e = enc(v);
    let n = utf8(s).len() as int;
    assert(e.subrange(1, 5 + n) =~= long_str_bytes(s));
    lemma_at(b, p, e, 0);
    lemma_holds(b, p, e, 1, 5 + n);
    lemma_long_text(s, b, p + 1);
}

proof fn lemma_date_round_trip(v: Model, b: Seq<u8>, p: int, t: Seq<Model>)
    requires
        v is Date,
        round_trips(v),
        0 <= p,
        p + enc(v).len() <= b.len(),
        b.subrange(p, p + enc(v).len()) == enc(v),
    ensures
        value_at(b, p, t) == Ok::<(Model, int, Seq<Model>), ErrorModel>((v, p + enc(v).len(), t)),
{
    let e = enc(v);
    lemma_at(b, p, e, 0);
    let unix_time = v->unix_time;
    lemma_holds(b, p, e, 1, 9);
    assert(e.subrange(1, 9) =~= be64(bits_of(unix_time)));
    lemma_get64(b, p + 1, bits_of(unix_time));
    lemma_holds(b, p, e, 9, 11);
    assert(e.subrange(9, 11) =~= be16(0));
    lemma_get16(b, p + 9, 0);
    lemma_millis_round_trip(unix_time);
}

proof fn lemma_object_round_trip(v: Model, b: Seq<u8>, p: int, t: Seq<Model>)
    requires
        v is Object,
        encodable(v),
        round_trips(v),
        0 <= p,
        p + enc(v).len() <= b.len(),
        b.subrange(p, p + enc(v).len()) == enc(v),
    ensures
        value_at(b, p, t) is Ok,
        value_at(b, p, t)->Ok_0.0 == v,
        value_at(b, p, t)->Ok_0.1 == p + enc(v).len(),
    decreases v, 1nat,
{
    let e = enc(v);
    lemma_at(b, p, e, 0);
    let t0 = t.push(Model::Null);
    let entries = v->Object_entries;
    let pe = enc_pairs(entries);
    match v->Object_class_name {
        None => {
            assert(e =~= seq![super::wire::OBJECT] + pe);
            lemma_holds(b, p, e, 1, e.len() as int);
            assert(e.subrange(1, e.len() as int) =~= pe);
            lemma_pairs_round_trip(entries, b, p + 1, t0);
        },
        Some(name) => {
            let n = utf8(name).len() as int;
            assert(e =~= seq![super::wire::TYPED_OBJECT] + short_str_bytes(name) + pe);
            lemma_holds(b, p, e, 1, 3 + n);
            assert(e.subrange(1, 3 + n) =~= short_str_bytes(name));
            lemma_short_text(name, b, p + 1);
            lemma_holds(b, p, e, 3 + n, e.len() as int);
            assert(e.subrange(3 + n, e.len() as int) =~= pe);
            lemma_pairs_round_trip(entries, b, p + 3 + n, t0);
        },
    }
}

#[verifier::rlimit(100)]
proof fn lemma_ecma_round_trip(v: Model, b: Seq<u8>, p: int, t: Seq<Model>)
    requires
        v is EcmaArray,
        encodable(v),
        round_trips(v),
        0 <= p,
        p + enc(v).len() <= b.len(),
        b.subrange(p, p + enc(v).len()) == enc(v),
    ensures
        value_at(b, p, t) is Ok,
        value_at(b, p, t)->Ok_0.0 == v,
        value_at(b, p, t)->Ok_0.1 == p + enc(v).len(),
    decreases v, 1nat,
{
    let e = enc(v);
    lemma_at(b, p, e, 0);
    let t0 = t.push(Model::Null);
    let entries = v->EcmaArray_entries;
    let pe = enc_pairs(entries);
    assert(e =~= seq![super::wire::ECMA_ARRAY] + be32(entries.len() as u32) + pe);
    lemma_holds(b, p, e, 5, e.len() as int);
    assert(e.subrange(5, e.len() as int) =~= pe);
    lemma_pairs_round_trip(entries, b, p + 5, t0);
}

proof fn lemma_array_round_trip(v: Model, b: Seq<u8>, p: int, t: Seq<Model>)
    requires
        v is Array,
        encodable(v),
        round_trips(v),
        0 <= p,
        p + enc(v).len() <= b.len(),
        b.subrange(p, p + enc(v).len()) == enc(v),
    ensures
        value_at(b, p, t) is Ok,
        value_at(b, p, t)->Ok_0.0 == v,
        value_at(b, p, t)->Ok_0.1 == p + enc(v).len(),
    decreases v, 1nat,
{
    let e = enc(v);
    lemma_at(b, p, e, 0);
    let entries = v->Array_entries;
    let ve = enc_values(entries);
    assert(e =~= seq![super::wire::STRICT_ARRAY] + be32(entries.len() as u32) + ve);
    lemma_holds(b, p, e, 1, 5);
    assert(e.subrange(1, 5) =~= be32(entries.len() as u32));
    lemma_get32(b, p + 1, entries.len() as u32);
    lemma_holds(b, p, e, 5, e.len() as int);
    assert(e.subrange(5, e.len() as int) =~= ve);
    lemma_values_round_trip(entries, b, p + 5, t);
}

/// Decoding the bytes of members, closed by the empty key and the
/// object-end marker, gives the members back.
#[verifier::rlimit(100)]
pub proof fn lemma_pairs_round_trip(es: Seq<(Seq<char>, Model)>, b: Seq<u8>, p: int, t: Seq<Model>)
    requires
        pairs_encodable(es),
        members_round_trip(es),
        0 <= p,
        p + enc_pairs(es).len() <= b.len(),
        b.subrange(p, p + enc_pairs(es).len()) == enc_pairs(es),
    ensures
        pairs_at(b, p, t) is Ok,
        pairs_at(b, p, t)->Ok_0.0 == es,
        pairs_at(b, p, t)->Ok_0.1 == p + enc_pairs(es).len(),
    decreases es, 0nat,
{
    let e = enc_pairs(es);
    if es.len() == 0 {
        assert(utf8(Seq::<char>::empty()) =~= Seq::<u8>::empty());
        assert(((0u16 >> 8u16) as u8) == 0u8 && (0u16 as u8) == 0u8) by (bit_vector);
        assert(be16(0) =~= seq![0u8, 0u8]);
        assert(short_str_bytes(Seq::empty()) =~= seq![0u8, 0u8]);
        assert(e =~= short_str_bytes(Seq::empty()) + seq![super::wire::OBJECT_END_MARKER]);
        lemma_holds(b, p, e, 0, 2);
        assert(e.subrange(0, 2) =~= short_str_bytes(Seq::empty()));
        lemma_short_text(Seq::empty(), b, p);
        lemma_at(b, p, e, 2);
    } else {
        let (k, v) = es[0];
        let n = utf8(k).len() as int;
        let rest = es.drop_first();
        lemma_enc_pairs_front(es);
        lemma_pairs_front(es);
        let ke = short_str_bytes(k);
        let ve = enc(v);
        let re = enc_pairs(rest);
        assert(e =~= ke + ve + re);
        lemma_holds(b, p, e, 0, 2 + n);
        assert(e.subrange(0, 2 + n) =~= ke);
        lemma_short_text(k, b, p);
        let q = p + 2 + n;
        lemma_holds(b, p, e, 2 + n, 2 + n + ve.len());
        assert(e.subrange(2 + n, 2 + n + ve.len()) =~= ve);
        lemma_first_byte(v);
        lemma_at(b, q, ve, 0);
        assert(decreases_to!(es => es[0]));
        lemma_value_round_trip(v, b, q, t);
        let t1 = value_at(b, q, t)->Ok_0.2;
        let q2 = q + ve.len();
        lemma_holds(b, p, e, 2 + n + ve.len(), e.len() as int);
        assert(e.subrange(2 + n + ve.len(), e.len() as int) =~= re);
        lemma_pairs_round_trip(rest, b, q2, t1);
        assert(seq![(k, v)] + rest =~= es);
    }
}

/// Decoding the bytes of values, one after the other, gives them back.
pub proof fn lemma_values_round_trip(vs: Seq<Model>, b: Seq<u8>, p: int, t: Seq<Model>)
    requires
        values_encodable(vs),
        values_round_trip(vs),
        0 <= p,
        p + enc_values(vs).len() <= b.len(),
        b.subrange(p, p + enc_values(vs).len()) == enc_values(vs),
    ensures
        values_at(vs.len(), b, p, t) is Ok,
        values_at(vs.len(), b, p, t)->Ok_0.0 == vs,
        values_at(vs.len(), b, p, t)->Ok_0.1 == p + enc_values(vs).len(),
    decreases vs, 0nat,
{
    let e = enc_values(vs);
    if vs.len() == 0 {
    } else {
        let v = vs[0];
        let rest = vs.drop_first();
        lemma_enc_values_front(vs);
        lemma_values_front(vs);
        let ve = enc(v);
        let re = enc_values(rest);
        lemma_holds(b, p, e, 0, ve.len() as int);
        assert(e.subrange(0, ve.len() as int) =~= ve);
        lemma_first_byte(v);
        lemma_value_round_trip(v, b, p, t);
        let t1 = value_at(b, p, t)->Ok_0.2;
        let q = p + ve.len();
        lemma_holds(b, p, e, ve.len() as int, e.len() as int);
        assert(e.subrange(ve.len() as int, e.len() as int) =~= re);
        lemma_values_round_trip(rest, b, q, t1);
        assert(seq![v] + rest =~= vs);
    }
}

} // verus!
