//! Decoding a proper prefix of the encoding of an AMF0 value runs out of
//! input.
use super::round_trip::{
    lemma_long_text, lemma_pairs_round_trip, lemma_short_text, lemma_value_round_trip,
    members_round_trip, round_trips, values_round_trip,
};
use super::wire::{
    enc, enc_pair_list, enc_pairs, enc_values, encodable, literal_at, long_str_bytes, pairs_at,
    pairs_encodable, payload_at, short_str_bytes, sized_text_at, value_at, values_at,
    values_encodable,
};
use super::Model;
use crate::amf3::truncation::{cut, lemma_cut_at, lemma_cut_holds, lemma_cut_part};
use crate::bytes::{be16, be32, lemma_get16, lemma_get32, utf8};
use crate::error::ErrorModel;
use vstd::prelude::*;

verus! {

/// A cut string with a 16-bit length runs out of input.
proof fn lemma_short_text_cut(s: Seq<char>, b: Seq<u8>, p: int)
    requires
        utf8(s).len() <= 0xFFFF,
        cut(b, p, short_str_bytes(s)),
    ensures
        sized_text_at(2, b, p) == Err::<(Seq<char>, int), ErrorModel>(ErrorModel::UnexpectedEof),
{
    let e = short_str_bytes(s);
    let n = utf8(s).len() as int;
    if b.len() >= p + 2 {
        lemma_cut_holds(b, p, e, 0, 2);
        assert(e.subrange(0, 2) =~= be16(n as u16));
        lemma_get16(b, p, n as u16);
    }
}

/// A cut string with a 32-bit length runs out of input.
proof fn lemma_long_text_cut(s: Seq<char>, b: Seq<u8>, p: int)
    requires
        utf8(s).len() <= u32::MAX,
        cut(b, p, long_str_bytes(s)),
    ensures
        sized_text_at(4, b, p) == Err::<(Seq<char>, int), ErrorModel>(ErrorModel::UnexpectedEof),
{
    let e = long_str_bytes(s);
    let n = utf8(s).len() as int;
    if b.len() >= p + 4 {
        lemma_cut_holds(b, p, e, 0, 4);
        assert(e.subrange(0, 4) =~= be32(n as u32));
        lemma_get32(b, p, n as u32);
    }
}

proof fn lemma_literal_fails(m: u8, b: Seq<u8>, p: int, t: Seq<Model>)
    requires
        0 <= p < b.len(),
        b[p] == m,
        m == super::wire::OBJECT || m == super::wire::ECMA_ARRAY || m == super::wire::TYPED_OBJECT,
        payload_at(m, b, p + 1, t.push(Model::Null)) == Err::<(Model, int, Seq<Model>), ErrorModel>(
            ErrorModel::UnexpectedEof,
        ),
    ensures
        value_at(b, p, t) == Err::<(Model, int, Seq<Model>), ErrorModel>(ErrorModel::UnexpectedEof),
{
    assert(literal_at(m, b, p + 1, t) == Err::<(Model, int, Seq<Model>), ErrorModel>(
        ErrorModel::UnexpectedEof,
    ));
}

/// Decoding, at any position and with any table, a proper prefix of the
/// encoding of a value that round-trips runs out of input.
pub proof fn lemma_value_cut(v: Model, b: Seq<u8>, p: int, t: Seq<Model>)
    requires
        encodable(v),
        round_trips(v),
        cut(b, p, enc(v)),
    ensures
        value_at(b, p, t) == Err::<(Model, int, Seq<Model>), ErrorModel>(ErrorModel::UnexpectedEof),
    decreases v, 2nat,
{
    let e = enc(v);
    if b.len() > p {
        lemma_cut_at(b, p, e, 0);
        match v {
            Model::String(s) => lemma_string_cut(v, s, b, p, t),
            Model::XmlDocument(s) => lemma_string_cut(v, s, b, p, t),
            Model::Object { .. } => lemma_object_cut(v, b, p, t),
            Model::EcmaArray { .. } => lemma_ecma_cut(v, b, p, t),
            Model::Array { .. } => lemma_array_cut(v, b, p, t),
            Model::AvmPlus(x) => {
                assert(e.subrange(1, e.len() as int) =~= crate::amf3::wire::enc(x));
                lemma_cut_part(b, p, e, 1, e.len() as int);
                crate::amf3::truncation::lemma_value_cut(x, b, p + 1, crate::amf3::wire::Tables::empty());
            },
            _ => {},
        }
    }
}

proof fn lemma_string_cut(v: Model, s: Seq<char>, b: Seq<u8>, p: int, t: Seq<Model>)
    requires
        v == Model::String(s) || v == Model::XmlDocument(s),
        encodable(v),
        p < b.len(),
        cut(b, p, enc(v)),
    ensures
        value_at(b, p, t) == Err::<(Model, int, Seq<Model>), ErrorModel>(ErrorModel::UnexpectedEof),
{
    let e = enc(v);
    lemma_cut_at(b, p, e, 0);
    if v is String && utf8(s).len() <= 0xFFFF {
        assert(e.subrange(1, e.len() as int) =~= short_str_bytes(s));
        lemma_cut_part(b, p, e, 1, e.len() as int);
        lemma_short_text_cut(s, b, p + 1);
    } else {
        assert(e.subrange(1, e.len() as int) =~= long_str_bytes(s));
        lemma_cut_part(b, p, e, 1, e.len() as int);
        lemma_long_text_cut(s, b, p + 1);
    }
}

proof fn lemma_object_cut(v: Model, b: Seq<u8>, p: int, t: Seq<Model>)
    requires
        v is Object,
        encodable(v),
        round_trips(v),
        p < b.len(),
        cut(b, p, enc(v)),
    ensures
        value_at(b, p, t) == Err::<(Model, int, Seq<Model>), ErrorModel>(ErrorModel::UnexpectedEof),
    decreases v, 1nat,
{
    let entries = v->Object_entries;
    match v->Object_class_name {
        None => lemma_anonymous_object_cut(entries, b, p, t),
        Some(name) => lemma_typed_object_cut(name, entries, b, p, t),
    }
}

proof fn lemma_anonymous_object_cut(entries: Seq<(Seq<char>, Model)>, b: Seq<u8>, p: int, t: Seq<Model>)
    requires
        encodable(Model::Object { class_name: None, entries }),
        round_trips(Model::Object { class_name: None, entries }),
        p < b.len(),
        cut(b, p, enc(Model::Object { class_name: None, entries })),
    ensures
        value_at(b, p, t) == Err::<(Model, int, Seq<Model>), ErrorModel>(ErrorModel::UnexpectedEof),
    decreases entries, 1nat,
{
    let e = enc(Model::Object { class_name: None, entries });
    lemma_cut_at(b, p, e, 0);
    let t0 = t.push(Model::Null);
    let pe = enc_pairs(entries);
    assert(e =~= seq![super::wire::OBJECT] + pe);
    assert(e.subrange(1, e.len() as int) =~= pe);
    lemma_cut_part(b, p, e, 1, e.len() as int);
    lemma_pairs_cut(entries, b, p + 1, t0);
    assert(payload_at(super::wire::OBJECT, b, p + 1, t0) == Err::<(Model, int, Seq<Model>), ErrorModel>(
        ErrorModel::UnexpectedEof,
    ));
    lemma_literal_fails(super::wire::OBJECT, b, p, t);
}

proof fn lemma_typed_payload_fails(b: Seq<u8>, p: int, t: Seq<Model>, name: Seq<char>, q: int)
    requires
        0 <= p <= q <= b.len(),
        sized_text_at(2, b, p) == Ok::<(Seq<char>, int), ErrorModel>((name, q)),
        pairs_at(b, q, t) == Err::<(Seq<(Seq<char>, Model)>, int, Seq<Model>), ErrorModel>(
            ErrorModel::UnexpectedEof,
        ),
    ensures
        payload_at(super::wire::TYPED_OBJECT, b, p, t) == Err::<(Model, int, Seq<Model>), ErrorModel>(
            ErrorModel::UnexpectedEof,
        ),
{
}

proof fn lemma_typed_name_fails(b: Seq<u8>, p: int, t: Seq<Model>)
    requires
        sized_text_at(2, b, p) == Err::<(Seq<char>, int), ErrorModel>(ErrorModel::UnexpectedEof),
    ensures
        payload_at(super::wire::TYPED_OBJECT, b, p, t) == Err::<(Model, int, Seq<Model>), ErrorModel>(
            ErrorModel::UnexpectedEof,
        ),
{
}

#[verifier::rlimit(100)]
proof fn lemma_typed_object_cut(name: Seq<char>, entries: Seq<(Seq<char>, Model)>, b: Seq<u8>, p: int, t: Seq<Model>)
    requires
        encodable(Model::Object { class_name: Some(name), entries }),
        round_trips(Model::Object { class_name: Some(name), entries }),
        p < b.len(),
        cut(b, p, enc(Model::Object { class_name: Some(name), entries })),
    ensures
        value_at(b, p, t) == Err::<(Model, int, Seq<Model>), ErrorModel>(ErrorModel::UnexpectedEof),
    decreases entries, 1nat,
{
    let e = enc(Model::Object { class_name: Some(name), entries });
    lemma_cut_at(b, p, e, 0);
    let t0 = t.push(Model::Null);
    let pe = enc_pairs(entries);
    let n = utf8(name).len() as int;
    assert(e =~= seq![super::wire::TYPED_OBJECT] + short_str_bytes(name) + pe);
    assert(e.subrange(1, 3 + n) =~= short_str_bytes(name));
    if b.len() < p + 3 + n {
        lemma_cut_part(b, p, e, 1, 3 + n);
        lemma_short_text_cut(name, b, p + 1);
        lemma_typed_name_fails(b, p + 1, t0);
    } else {
        lemma_cut_holds(b, p, e, 1, 3 + n);
        lemma_short_text(name, b, p + 1);
        assert(e.subrange(3 + n, e.len() as int) =~= pe);
        lemma_cut_part(b, p, e, 3 + n, e.len() as int);
        lemma_pairs_cut(entries, b, p + 3 + n, t0);
        lemma_typed_payload_fails(b, p + 1, t0, name, p + 3 + n);
    }
    lemma_literal_fails(super::wire::TYPED_OBJECT, b, p, t);
}

proof fn lemma_ecma_cut(v: Model, b: Seq<u8>, p: int, t: Seq<Model>)
    requires
        v is EcmaArray,
        encodable(v),
        round_trips(v),
        p < b.len(),
        cut(b, p, enc(v)),
    ensures
        value_at(b, p, t) == Err::<(Model, int, Seq<Model>), ErrorModel>(ErrorModel::UnexpectedEof),
    decreases v, 1nat,
{
    let e = enc(v);
    lemma_cut_at(b, p, e, 0);
    let t0 = t.push(Model::Null);
    let entries = v->EcmaArray_entries;
    let pe = enc_pairs(entries);
    assert(e =~= seq![super::wire::ECMA_ARRAY] + be32(entries.len() as u32) + pe);
    if b.len() >= p + 5 {
        assert(e.subrange(5, e.len() as int) =~= pe);
        lemma_cut_part(b, p, e, 5, e.len() as int);
        lemma_pairs_cut(entries, b, p + 5, t0);
    }
    lemma_literal_fails(super::wire::ECMA_ARRAY, b, p, t);
}

proof fn lemma_array_cut(v: Model, b: Seq<u8>, p: int, t: Seq<Model>)
    requires
        v is Array,
        encodable(v),
        round_trips(v),
        p < b.len(),
        cut(b, p, enc(v)),
    ensures
        value_at(b, p, t) == Err::<(Model, int, Seq<Model>), ErrorModel>(ErrorModel::UnexpectedEof),
    decreases v, 1nat,
{
    let e = enc(v);
    lemma_cut_at(b, p, e, 0);
    let entries = v->Array_entries;
    let ve = enc_values(entries);
    assert(e =~= seq![super::wire::STRICT_ARRAY] + be32(entries.len() as u32) + ve);
    if b.len() >= p + 5 {
        lemma_cut_holds(b, p, e, 1, 5);
        assert(e.subrange(1, 5) =~= be32(entries.len() as u32));
        lemma_get32(b, p + 1, entries.len() as u32);
        assert(e.subrange(5, e.len() as int) =~= ve);
        lemma_cut_part(b, p, e, 5, e.len() as int);
        lemma_values_cut(entries, b, p + 5, t);
    }
    assert(super::wire::strict_array_at(b, p + 1, t) == Err::<(Model, int, Seq<Model>), ErrorModel>(
        ErrorModel::UnexpectedEof,
    ));
}

proof fn lemma_pairs_key_fails(b: Seq<u8>, p: int, t: Seq<Model>)
    requires
        sized_text_at(2, b, p) == Err::<(Seq<char>, int), ErrorModel>(ErrorModel::UnexpectedEof),
    ensures
        pairs_at(b, p, t) == Err::<(Seq<(Seq<char>, Model)>, int, Seq<Model>), ErrorModel>(
            ErrorModel::UnexpectedEof,
        ),
{
}

proof fn lemma_pairs_value_fails(b: Seq<u8>, p: int, t: Seq<Model>, k: Seq<char>, q: int)
    requires
        sized_text_at(2, b, p) == Ok::<(Seq<char>, int), ErrorModel>((k, q)),
        0 <= p < q <= b.len(),
        q < b.len() ==> b[q] != super::wire::OBJECT_END_MARKER,
        value_at(b, q, t) == Err::<(Model, int, Seq<Model>), ErrorModel>(ErrorModel::UnexpectedEof),
    ensures
        pairs_at(b, p, t) == Err::<(Seq<(Seq<char>, Model)>, int, Seq<Model>), ErrorModel>(
            ErrorModel::UnexpectedEof,
        ),
{
}

proof fn lemma_pairs_rest_fails(b: Seq<u8>, p: int, t: Seq<Model>, k: Seq<char>, q: int, v: Model, q2: int, t2: Seq<Model>)
    requires
        sized_text_at(2, b, p) == Ok::<(Seq<char>, int), ErrorModel>((k, q)),
        0 <= p < q < q2 <= b.len(),
        b[q] != super::wire::OBJECT_END_MARKER,
        value_at(b, q, t) == Ok::<(Model, int, Seq<Model>), ErrorModel>((v, q2, t2)),
        pairs_at(b, q2, t2) == Err::<(Seq<(Seq<char>, Model)>, int, Seq<Model>), ErrorModel>(
            ErrorModel::UnexpectedEof,
        ),
    ensures
        pairs_at(b, p, t) == Err::<(Seq<(Seq<char>, Model)>, int, Seq<Model>), ErrorModel>(
            ErrorModel::UnexpectedEof,
        ),
{
}

/// A cut list of members runs out of input.
pub proof fn lemma_pairs_cut(es: Seq<(Seq<char>, Model)>, b: Seq<u8>, p: int, t: Seq<Model>)
    requires
        pairs_encodable(es),
        members_round_trip(es),
        cut(b, p, enc_pairs(es)),
    ensures
        pairs_at(b, p, t) == Err::<(Seq<(Seq<char>, Model)>, int, Seq<Model>), ErrorModel>(
            ErrorModel::UnexpectedEof,
        ),
    decreases es, 0nat,
{
    let e = enc_pairs(es);
    if es.len() == 0 {
        assert(utf8(Seq::<char>::empty()) =~= Seq::<u8>::empty());
        assert(((0u16 >> 8u16) as u8) == 0u8 && (0u16 as u8) == 0u8) by (bit_vector);
        assert(be16(0) =~= seq![0u8, 0u8]);
        assert(short_str_bytes(Seq::empty()) =~= seq![0u8, 0u8]);
        assert(e =~= short_str_bytes(Seq::empty()) + seq![super::wire::OBJECT_END_MARKER]);
        assert(e.subrange(0, 2) =~= short_str_bytes(Seq::empty()));
        if b.len() < p + 2 {
            lemma_cut_part(b, p, e, 0, 2);
            lemma_short_text_cut(Seq::empty(), b, p);
            lemma_pairs_key_fails(b, p, t);
        } else {
            lemma_cut_holds(b, p, e, 0, 2);
            lemma_short_text(Seq::empty(), b, p);
            lemma_pairs_value_fails(b, p, t, Seq::empty(), p + 2);
        }
    } else {
        let (k, v) = es[0];
        let rest = es.drop_first();
        super::round_trip::lemma_enc_pairs_front(es);
        super::round_trip::lemma_pairs_front(es);
        let ke = short_str_bytes(k);
        let ve = enc(v);
        let re = enc_pairs(rest);
        let lk = ke.len() as int;
        let lv = ve.len() as int;
        assert(e =~= ke + ve + re);
        assert(e.subrange(0, lk) =~= ke);
        if b.len() < p + lk {
            lemma_cut_part(b, p, e, 0, lk);
            lemma_short_text_cut(k, b, p);
            lemma_pairs_key_fails(b, p, t);
        } else {
            lemma_cut_holds(b, p, e, 0, lk);
            lemma_short_text(k, b, p);
            let q = p + lk;
            assert(e.subrange(lk, lk + lv) =~= ve);
            assert(decreases_to!(es => es[0]));
            super::round_trip::lemma_first_byte(v);
            if b.len() < q + lv {
                lemma_cut_part(b, p, e, lk, lk + lv);
                if b.len() > q {
                    lemma_cut_at(b, q, ve, 0);
                }
                lemma_value_cut(v, b, q, t);
                lemma_pairs_value_fails(b, p, t, k, q);
            } else {
                lemma_cut_holds(b, p, e, lk, lk + lv);
                lemma_value_round_trip(v, b, q, t);
                assert(b.subrange(q, q + lv)[0] == b[q]);
                let t2 = value_at(b, q, t)->Ok_0.2;
                assert(e.subrange(lk + lv, e.len() as int) =~= re);
                lemma_cut_part(b, p, e, lk + lv, e.len() as int);
                lemma_pairs_cut(rest, b, q + lv, t2);
                lemma_pairs_rest_fails(b, p, t, k, q, v, q + lv, t2);
            }
        }
    }
}

/// A cut list of values runs out of input.
pub proof fn lemma_values_cut(vs: Seq<Model>, b: Seq<u8>, p: int, t: Seq<Model>)
    requires
        values_encodable(vs),
        values_round_trip(vs),
        cut(b, p, enc_values(vs)),
    ensures
        values_at(vs.len(), b, p, t) == Err::<(Seq<Model>, int, Seq<Model>), ErrorModel>(
            ErrorModel::UnexpectedEof,
        ),
    decreases vs, 0nat,
{
    let e = enc_values(vs);
    if vs.len() > 0 {
        let v = vs[0];
        let rest = vs.drop_first();
        super::round_trip::lemma_enc_values_front(vs);
        super::round_trip::lemma_values_front(vs);
        let ve = enc(v);
        let lv = ve.len() as int;
        assert(e.subrange(0, lv) =~= ve);
        if b.len() < p + lv {
            lemma_cut_part(b, p, e, 0, lv);
            lemma_value_cut(v, b, p, t);
        } else {
            lemma_cut_holds(b, p, e, 0, lv);
            lemma_value_round_trip(v, b, p, t);
            super::round_trip::lemma_first_byte(v);
            let t1 = value_at(b, p, t)->Ok_0.2;
            assert(e.subrange(lv, e.len() as int) =~= enc_values(rest));
            lemma_cut_part(b, p, e, lv, e.len() as int);
            lemma_values_cut(rest, b, p + lv, t1);
        }
    }
}

} // verus!
