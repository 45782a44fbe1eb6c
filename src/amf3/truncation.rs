//! Decoding a proper prefix of the encoding of an AMF3 value runs out of
//! input.
use super::round_trip::{
    lemma_pairs_round_trip, lemma_size_round_trip, lemma_str_round_trip, lemma_value_round_trip,
    members_round_trip, round_trips, values_round_trip, with_string,
};
use super::wire::{
    i32s_bytes, u32s_bytes, u64s_bytes, complex_at, enc, enc_pair_list, enc_values, literal_at, pairs_at, payload_at, size_bytes,
    sor_at, str_at, str_bytes, u29_at, u29_bytes, u29_of, value_at, values_at, SizeOrIndex,
    Tables, SIZE_LIMIT,
};
use super::Model;
use crate::bytes::utf8;
use crate::date::bits_of;
use crate::error::ErrorModel;
use vstd::prelude::*;

verus! {

/// `b` ends at a point inside `e`, which it holds from `p` on up to there.
pub open spec fn cut(b: Seq<u8>, p: int, e: Seq<u8>) -> bool {
    0 <= p <= b.len() < p + e.len() && b.subrange(p, b.len() as int) == e.subrange(
        0,
        b.len() - p,
    )
}

pub proof fn lemma_cut_holds(b: Seq<u8>, p: int, e: Seq<u8>, i: int, j: int)
    requires
        cut(b, p, e),
        0 <= i <= j,
        p + j <= b.len(),
    ensures
        b.subrange(p + i, p + j) == e.subrange(i, j),
{
    assert forall|k: int| 0 <= k < j - i implies b.subrange(p + i, p + j)[k] == e.subrange(i, j)[k] by {
        assert(b.subrange(p, b.len() as int)[i + k] == b[p + i + k]);
        assert(e.subrange(0, b.len() - p)[i + k] == e[i + k]);
    }
    assert(b.subrange(p + i, p + j) =~= e.subrange(i, j));
}

pub proof fn lemma_cut_at(b: Seq<u8>, p: int, e: Seq<u8>, i: int)
    requires
        cut(b, p, e),
        0 <= i,
        p + i < b.len(),
    ensures
        b[p + i] == e[i],
{
    assert(b.subrange(p, b.len() as int)[i] == b[p + i]);
    assert(e.subrange(0, b.len() - p)[i] == e[i]);
}

pub proof fn lemma_cut_part(b: Seq<u8>, p: int, e: Seq<u8>, i: int, j: int)
    requires
        cut(b, p, e),
        0 <= i <= j <= e.len(),
        p + i <= b.len() < p + j,
    ensures
        cut(b, p + i, e.subrange(i, j)),
{
    let part = e.subrange(i, j);
    assert forall|k: int| 0 <= k < b.len() - p - i implies #[trigger] b.subrange(p + i, b.len() as int)[k]
        == part.subrange(0, b.len() - p - i)[k] by {
        assert(b.subrange(p, b.len() as int)[i + k] == b[p + i + k]);
        assert(e.subrange(0, b.len() - p)[i + k] == e[i + k]);
    }
    assert(b.subrange(p + i, b.len() as int) =~= part.subrange(0, b.len() - p - i));
}

/// A cut variable-length integer runs out of input.
pub proof fn lemma_u29_cut(u: u32, b: Seq<u8>, p: int)
    requires
        u < 0x2000_0000,
        cut(b, p, u29_bytes(u)),
    ensures
        u29_at(b, p) == Err::<(u32, int), ErrorModel>(ErrorModel::UnexpectedEof),
{
    reveal(u29_at);
    let e = u29_bytes(u);
    if b.len() > p {
        lemma_cut_at(b, p, e, 0);
        if b.len() > p + 1 {
            lemma_cut_at(b, p, e, 1);
        }
        if b.len() > p + 2 {
            lemma_cut_at(b, p, e, 2);
        }
        if u < 0x4000 {
            assert(0x80 <= u < 0x4000 ==> ((u >> 7) | 0x80) as u8 >= 0x80) by (bit_vector);
        } else if u < 0x20_0000 {
            assert(0x4000 <= u < 0x20_0000 ==> ((u >> 14) | 0x80) as u8 >= 0x80 && (((u >> 7)
                & 0x7F) | 0x80) as u8 >= 0x80) by (bit_vector);
        } else {
            assert(0x20_0000 <= u ==> ((u >> 22) | 0x80) as u8 >= 0x80 && (((u >> 15) & 0x7F)
                | 0x80) as u8 >= 0x80 && (((u >> 8) & 0x7F) | 0x80) as u8 >= 0x80) by (bit_vector);
        }
    }
}

/// A cut literal length runs out of input.
pub proof fn lemma_size_cut(n: nat, b: Seq<u8>, p: int)
    requires
        n < SIZE_LIMIT,
        cut(b, p, size_bytes(n)),
    ensures
        sor_at(b, p) == Err::<(SizeOrIndex, int), ErrorModel>(ErrorModel::UnexpectedEof),
{
    lemma_u29_cut((2 * n + 1) as u32, b, p);
}

/// A cut literal string runs out of input.
pub proof fn lemma_str_cut(s: Seq<char>, b: Seq<u8>, p: int, t: Tables)
    requires
        utf8(s).len() < SIZE_LIMIT,
        cut(b, p, str_bytes(s)),
    ensures
        str_at(b, p, t) == Err::<(Seq<char>, int, Tables), ErrorModel>(ErrorModel::UnexpectedEof),
{
    let k = utf8(s);
    let sz = size_bytes(k.len());
    let e = str_bytes(s);
    let l = sz.len() as int;
    if b.len() < p + l {
        lemma_cut_part(b, p, e, 0, l);
        assert(e.subrange(0, l) =~= sz);
        lemma_size_cut(k.len(), b, p);
    } else {
        lemma_cut_holds(b, p, e, 0, l);
        assert(e.subrange(0, l) =~= sz);
        lemma_size_round_trip(k.len(), b, p);
    }
}

proof fn lemma_complex_fails(m: u8, b: Seq<u8>, p: int, t: Tables)
    requires
        super::wire::XML_DOC <= m <= super::wire::DICTIONARY,
        0 <= p < b.len(),
        b[p] == m,
        sor_at(b, p + 1) == Err::<(SizeOrIndex, int), ErrorModel>(ErrorModel::UnexpectedEof),
    ensures
        value_at(b, p, t) == Err::<(Model, int, Tables), ErrorModel>(ErrorModel::UnexpectedEof),
{
    assert(complex_at(m, b, p, t) == Err::<(Model, int, Tables), ErrorModel>(ErrorModel::UnexpectedEof));
}

proof fn lemma_literal_fails(m: u8, n: nat, b: Seq<u8>, p: int, p1: int, t: Tables)
    requires
        super::wire::XML_DOC <= m <= super::wire::DICTIONARY,
        0 <= p < p1 <= b.len(),
        b[p] == m,
        sor_at(b, p + 1) == Ok::<(SizeOrIndex, int), ErrorModel>((SizeOrIndex::Size(n as usize), p1)),
        n < SIZE_LIMIT,
        payload_at(m, n, b, p1, Tables { complexes: t.complexes.push(Model::Null), ..t }) == Err::<
            (Model, int, Tables),
            ErrorModel,
        >(ErrorModel::UnexpectedEof),
    ensures
        value_at(b, p, t) == Err::<(Model, int, Tables), ErrorModel>(ErrorModel::UnexpectedEof),
{
    assert(literal_at(m, n, b, p1, t) == Err::<(Model, int, Tables), ErrorModel>(ErrorModel::UnexpectedEof));
    assert(complex_at(m, b, p, t) == Err::<(Model, int, Tables), ErrorModel>(ErrorModel::UnexpectedEof));
}

/// Decoding, at any position and with any tables, a proper prefix of the
/// encoding of a value that round-trips runs out of input.
pub proof fn lemma_value_cut(v: Model, b: Seq<u8>, p: int, t: Tables)
    requires
        round_trips(v),
        cut(b, p, enc(v)),
    ensures
        value_at(b, p, t) == Err::<(Model, int, Tables), ErrorModel>(ErrorModel::UnexpectedEof),
    decreases v, 2nat,
{
    let e = enc(v);
    if b.len() > p {
        lemma_cut_at(b, p, e, 0);
        match v {
            Model::Integer(i) => {
                let u = u29_of(i);
                assert(e.subrange(1, e.len() as int) =~= u29_bytes(u));
                lemma_cut_part(b, p, e, 1, e.len() as int);
                lemma_u29_cut(u, b, p + 1);
            },
            Model::String(s) => {
                assert(e.subrange(1, e.len() as int) =~= str_bytes(s));
                lemma_cut_part(b, p, e, 1, e.len() as int);
                lemma_str_cut(s, b, p + 1, t);
            },
            Model::XmlDocument(s) => lemma_text_cut(v, s, b, p, t),
            Model::Xml(s) => lemma_text_cut(v, s, b, p, t),
            Model::Date { unix_time } => lemma_date_cut(v, b, p, t),
            Model::ByteArray(bs) => lemma_bytes_cut(bs, b, p, t),
            Model::Array { .. } => lemma_array_cut(v, b, p, t),
            Model::Dictionary { .. } => lemma_dictionary_cut(v, b, p, t),
            Model::ObjectVector { .. } => lemma_object_vector_cut(v, b, p, t),
            Model::IntVector { .. } => lemma_vector_cut(v, b, p, t),
            Model::UintVector { .. } => lemma_vector_cut(v, b, p, t),
            Model::DoubleVector { .. } => lemma_vector_cut(v, b, p, t),
            _ => {},
        }
    }
}

proof fn lemma_text_cut(v: Model, s: Seq<char>, b: Seq<u8>, p: int, t: Tables)
    requires
        v == Model::XmlDocument(s) || v == Model::Xml(s),
        utf8(s).len() < SIZE_LIMIT,
        p < b.len(),
        cut(b, p, enc(v)),
    ensures
        value_at(b, p, t) == Err::<(Model, int, Tables), ErrorModel>(ErrorModel::UnexpectedEof),
{
    let e = enc(v);
    let k = utf8(s);
    let sz = size_bytes(k.len());
    let l = sz.len() as int;
    lemma_cut_at(b, p, e, 0);
    assert(e.subrange(1, 1 + l) =~= sz);
    if b.len() < p + 1 + l {
        lemma_cut_part(b, p, e, 1, 1 + l);
        lemma_size_cut(k.len(), b, p + 1);
        lemma_complex_fails(e[0], b, p, t);
    } else {
        lemma_cut_holds(b, p, e, 1, 1 + l);
        lemma_size_round_trip(k.len(), b, p + 1);
        let t0 = Tables { complexes: t.complexes.push(Model::Null), ..t };
        assert(payload_at(e[0], k.len(), b, p + 1 + l, t0) == Err::<(Model, int, Tables), ErrorModel>(
            ErrorModel::UnexpectedEof,
        ));
        lemma_literal_fails(e[0], k.len(), b, p, p + 1 + l, t);
    }
}

proof fn lemma_date_cut(v: Model, b: Seq<u8>, p: int, t: Tables)
    requires
        v is Date,
        p < b.len(),
        cut(b, p, enc(v)),
    ensures
        value_at(b, p, t) == Err::<(Model, int, Tables), ErrorModel>(ErrorModel::UnexpectedEof),
{
    let e = enc(v);
    let sz = size_bytes(0);
    assert(sz.len() == 1);
    lemma_cut_at(b, p, e, 0);
    assert(e.subrange(1, 2) =~= sz);
    if b.len() < p + 2 {
        lemma_cut_part(b, p, e, 1, 2);
        lemma_size_cut(0, b, p + 1);
        lemma_complex_fails(super::wire::DATE, b, p, t);
    } else {
        lemma_cut_holds(b, p, e, 1, 2);
        lemma_size_round_trip(0, b, p + 1);
        let t0 = Tables { complexes: t.complexes.push(Model::Null), ..t };
        assert(payload_at(super::wire::DATE, 0, b, p + 2, t0) == Err::<(Model, int, Tables), ErrorModel>(
            ErrorModel::UnexpectedEof,
        ));
        lemma_literal_fails(super::wire::DATE, 0, b, p, p + 2, t);
    }
}

proof fn lemma_bytes_cut(bs: Seq<u8>, b: Seq<u8>, p: int, t: Tables)
    requires
        bs.len() < SIZE_LIMIT,
        p < b.len(),
        cut(b, p, enc(Model::ByteArray(bs))),
    ensures
        value_at(b, p, t) == Err::<(Model, int, Tables), ErrorModel>(ErrorModel::UnexpectedEof),
{
    let e = enc(Model::ByteArray(bs));
    let sz = size_bytes(bs.len());
    let l = sz.len() as int;
    lemma_cut_at(b, p, e, 0);
    assert(e.subrange(1, 1 + l) =~= sz);
    if b.len() < p + 1 + l {
        lemma_cut_part(b, p, e, 1, 1 + l);
        lemma_size_cut(bs.len(), b, p + 1);
        lemma_complex_fails(super::wire::BYTE_ARRAY, b, p, t);
    } else {
        lemma_cut_holds(b, p, e, 1, 1 + l);
        lemma_size_round_trip(bs.len(), b, p + 1);
        let t0 = Tables { complexes: t.complexes.push(Model::Null), ..t };
        assert(payload_at(super::wire::BYTE_ARRAY, bs.len(), b, p + 1 + l, t0) == Err::<
            (Model, int, Tables),
            ErrorModel,
        >(ErrorModel::UnexpectedEof));
        lemma_literal_fails(super::wire::BYTE_ARRAY, bs.len(), b, p, p + 1 + l, t);
    }
}

proof fn lemma_vector_len(v: Model)
    requires
        v is IntVector || v is UintVector || v is DoubleVector,
    ensures
        super::round_trip::elements_bytes(v).len() == (if v is DoubleVector {
            8int
        } else {
            4int
        }) * super::round_trip::vector_len(v),
{
    match v {
        Model::IntVector { entries, .. } => {
            assert(i32s_bytes(entries).subrange(0, i32s_bytes(entries).len() as int) =~= i32s_bytes(entries));
            super::round_trip::lemma_i32s_bytes(entries, i32s_bytes(entries), 0);
        },
        Model::UintVector { entries, .. } => {
            assert(u32s_bytes(entries).subrange(0, u32s_bytes(entries).len() as int) =~= u32s_bytes(entries));
            super::round_trip::lemma_u32s_bytes(entries, u32s_bytes(entries), 0);
        },
        Model::DoubleVector { entries, .. } => {
            assert(u64s_bytes(entries).subrange(0, u64s_bytes(entries).len() as int) =~= u64s_bytes(entries));
            super::round_trip::lemma_u64s_bytes(entries, u64s_bytes(entries), 0);
        },
        _ => {},
    }
}

proof fn lemma_vector_payload_fails(m: u8, n: nat, b: Seq<u8>, p: int, t: Tables)
    requires
        m == super::wire::VECTOR_INT || m == super::wire::VECTOR_UINT || m == super::wire::VECTOR_DOUBLE,
        p + 1 + (if m == super::wire::VECTOR_DOUBLE {
            8int
        } else {
            4int
        }) * n > b.len(),
    ensures
        payload_at(m, n, b, p, t) == Err::<(Model, int, Tables), ErrorModel>(ErrorModel::UnexpectedEof),
{
    assert(super::wire::vector_at(m, n, b, p, t) == Err::<(Model, int, Tables), ErrorModel>(
        ErrorModel::UnexpectedEof,
    ));
}

#[verifier::rlimit(100)]
proof fn lemma_vector_cut(v: Model, b: Seq<u8>, p: int, t: Tables)
    requires
        v is IntVector || v is UintVector || v is DoubleVector,
        super::round_trip::vector_len(v) < SIZE_LIMIT,
        p < b.len(),
        cut(b, p, enc(v)),
    ensures
        value_at(b, p, t) == Err::<(Model, int, Tables), ErrorModel>(ErrorModel::UnexpectedEof),
{
    let e = enc(v);
    let n = super::round_trip::vector_len(v);
    let sz = size_bytes(n);
    let l = sz.len() as int;
    let xs = super::round_trip::elements_bytes(v);
    lemma_vector_len(v);
    assert(e =~= seq![e[0]] + sz + seq![super::round_trip::vector_fixed(v) as u8] + xs);
    lemma_cut_at(b, p, e, 0);
    assert(e.subrange(1, 1 + l) =~= sz);
    if b.len() < p + 1 + l {
        lemma_cut_part(b, p, e, 1, 1 + l);
        lemma_size_cut(n, b, p + 1);
        lemma_complex_fails(e[0], b, p, t);
    } else {
        lemma_cut_holds(b, p, e, 1, 1 + l);
        lemma_size_round_trip(n, b, p + 1);
        let t0 = Tables { complexes: t.complexes.push(Model::Null), ..t };
        lemma_vector_payload_fails(e[0], n, b, p + 1 + l, t0);
        lemma_literal_fails(e[0], n, b, p, p + 1 + l, t);
    }
}

proof fn lemma_dict_key_fails(n: nat, b: Seq<u8>, p: int, t: Tables)
    requires
        n > 0,
        value_at(b, p, t) == Err::<(Model, int, Tables), ErrorModel>(ErrorModel::UnexpectedEof),
    ensures
        super::wire::dict_at(n, b, p, t) == Err::<(Seq<(Model, Model)>, int, Tables), ErrorModel>(
            ErrorModel::UnexpectedEof,
        ),
{
}

proof fn lemma_dict_value_fails(n: nat, b: Seq<u8>, p: int, t: Tables, k: Model, p1: int, t1: Tables)
    requires
        n > 0,
        0 <= p < p1 <= b.len(),
        value_at(b, p, t) is Ok,
        value_at(b, p, t)->Ok_0 == (k, p1, t1),
        value_at(b, p1, t1) == Err::<(Model, int, Tables), ErrorModel>(ErrorModel::UnexpectedEof),
    ensures
        super::wire::dict_at(n, b, p, t) == Err::<(Seq<(Model, Model)>, int, Tables), ErrorModel>(
            ErrorModel::UnexpectedEof,
        ),
{
}

/// A cut list of dictionary entries runs out of input.
#[verifier::spinoff_prover]
#[verifier::rlimit(100)]
pub proof fn lemma_entries_cut(es: Seq<(Model, Model)>, b: Seq<u8>, p: int, t: Tables)
    requires
        super::round_trip::entries_round_trip(es),
        cut(b, p, super::wire::enc_dict(es)),
    ensures
        super::wire::dict_at(es.len(), b, p, t) == Err::<(Seq<(Model, Model)>, int, Tables), ErrorModel>(
            ErrorModel::UnexpectedEof,
        ),
    decreases es, 0nat,
{
    let e = super::wire::enc_dict(es);
    if es.len() > 0 {
        let (k, v) = es[0];
        let rest = es.drop_first();
        super::round_trip::lemma_entries_front(es);
        let ke = enc(k);
        let ve = enc(v);
        let re = super::wire::enc_dict(rest);
        let lk = ke.len() as int;
        let lv = ve.len() as int;
        assert(e =~= ke + ve + re);
        assert(decreases_to!(es => es[0]));
        assert(e.subrange(0, lk) =~= ke);
        if b.len() < p + lk {
            lemma_cut_part(b, p, e, 0, lk);
            lemma_value_cut(k, b, p, t);
            lemma_dict_key_fails(es.len(), b, p, t);
        } else {
            lemma_cut_holds(b, p, e, 0, lk);
            lemma_value_round_trip(k, b, p, t);
            let t1 = value_at(b, p, t)->Ok_0.2;
            assert(e.subrange(lk, lk + lv) =~= ve);
            assert(lk > 0 && lv > 0);
            if b.len() < p + lk + lv {
                lemma_cut_part(b, p, e, lk, lk + lv);
                lemma_value_cut(v, b, p + lk, t1);
                lemma_dict_value_fails(es.len(), b, p, t, k, p + lk, t1);
            } else {
                lemma_cut_holds(b, p, e, lk, lk + lv);
                lemma_value_round_trip(v, b, p + lk, t1);
                let t2 = value_at(b, p + lk, t1)->Ok_0.2;
                assert(e.subrange(lk + lv, e.len() as int) =~= re);
                lemma_cut_part(b, p, e, lk + lv, e.len() as int);
                lemma_entries_cut(rest, b, p + lk + lv, t2);
                super::round_trip::lemma_dict_cons(es.len(), b, p, t, k, p + lk, t1, v, p + lk + lv, t2);
            }
        }
    }
}

proof fn lemma_dictionary_payload_fails(n: nat, b: Seq<u8>, p: int, t: Tables)
    requires
        0 <= p,
        p + 1 > b.len() || super::wire::dict_at(n, b, p + 1, t) == Err::<
            (Seq<(Model, Model)>, int, Tables),
            ErrorModel,
        >(ErrorModel::UnexpectedEof),
    ensures
        payload_at(super::wire::DICTIONARY, n, b, p, t) == Err::<(Model, int, Tables), ErrorModel>(
            ErrorModel::UnexpectedEof,
        ),
{
    assert(super::wire::dictionary_at(n, b, p, t) == payload_at(super::wire::DICTIONARY, n, b, p, t));
}

#[verifier::rlimit(100)]
proof fn lemma_dictionary_cut(v: Model, b: Seq<u8>, p: int, t: Tables)
    requires
        v is Dictionary,
        v->Dictionary_entries.len() < SIZE_LIMIT,
        super::round_trip::entries_round_trip(v->Dictionary_entries),
        p < b.len(),
        cut(b, p, enc(v)),
    ensures
        value_at(b, p, t) == Err::<(Model, int, Tables), ErrorModel>(ErrorModel::UnexpectedEof),
    decreases v, 1nat,
{
    let entries = v->Dictionary_entries;
    let weak = v->is_weak;
    let e = enc(v);
    let n = entries.len();
    let sz = size_bytes(n);
    let l = sz.len() as int;
    let de = super::wire::enc_dict(entries);
    assert(e =~= seq![super::wire::DICTIONARY] + sz + seq![weak as u8] + de);
    lemma_cut_at(b, p, e, 0);
    assert(e.subrange(1, 1 + l) =~= sz);
    if b.len() < p + 1 + l {
        lemma_cut_part(b, p, e, 1, 1 + l);
        lemma_size_cut(n, b, p + 1);
        lemma_complex_fails(super::wire::DICTIONARY, b, p, t);
    } else {
        lemma_cut_holds(b, p, e, 1, 1 + l);
        lemma_size_round_trip(n, b, p + 1);
        let p1 = p + 1 + l;
        let t0 = Tables { complexes: t.complexes.push(Model::Null), ..t };
        if b.len() > p1 {
            assert(e.subrange(2 + l, e.len() as int) =~= de);
            lemma_cut_part(b, p, e, 2 + l, e.len() as int);
            lemma_entries_cut(entries, b, p1 + 1, t0);
        }
        lemma_dictionary_payload_fails(n, b, p1, t0);
        lemma_literal_fails(super::wire::DICTIONARY, n, b, p, p1, t);
    }
}

proof fn lemma_object_vector_payload_fails(n: nat, b: Seq<u8>, p: int, t: Tables)
    requires
        0 <= p,
        p + 1 > b.len() || str_at(b, p + 1, t) == Err::<(Seq<char>, int, Tables), ErrorModel>(
            ErrorModel::UnexpectedEof,
        ) || (str_at(b, p + 1, t) is Ok && p <= str_at(b, p + 1, t)->Ok_0.1 <= b.len() && values_at(
            n,
            b,
            str_at(b, p + 1, t)->Ok_0.1,
            str_at(b, p + 1, t)->Ok_0.2,
        ) == Err::<(Seq<Model>, int, Tables), ErrorModel>(ErrorModel::UnexpectedEof)),
    ensures
        payload_at(super::wire::VECTOR_OBJECT, n, b, p, t) == Err::<(Model, int, Tables), ErrorModel>(
            ErrorModel::UnexpectedEof,
        ),
{
    assert(super::wire::vector_object_at(n, b, p, t) == payload_at(super::wire::VECTOR_OBJECT, n, b, p, t));
}

#[verifier::rlimit(100)]
proof fn lemma_object_vector_cut(v: Model, b: Seq<u8>, p: int, t: Tables)
    requires
        v is ObjectVector,
        v->ObjectVector_entries.len() < SIZE_LIMIT,
        super::round_trip::type_name_round_trips(v->ObjectVector_class_name),
        values_round_trip(v->ObjectVector_entries),
        p < b.len(),
        cut(b, p, enc(v)),
    ensures
        value_at(b, p, t) == Err::<(Model, int, Tables), ErrorModel>(ErrorModel::UnexpectedEof),
    decreases v, 1nat,
{
    let entries = v->ObjectVector_entries;
    let cn = v->ObjectVector_class_name;
    let fixed = v->ObjectVector_is_fixed;
    let e = enc(v);
    let n = entries.len();
    let sz = size_bytes(n);
    let l = sz.len() as int;
    let name = super::round_trip::type_name_written(cn);
    super::round_trip::lemma_type_name_bytes(cn);
    let ne = str_bytes(name);
    let ln = ne.len() as int;
    let ve = enc_values(entries);
    assert(e =~= seq![super::wire::VECTOR_OBJECT] + sz + seq![fixed as u8] + ne + ve);
    lemma_cut_at(b, p, e, 0);
    assert(e.subrange(1, 1 + l) =~= sz);
    if b.len() < p + 1 + l {
        lemma_cut_part(b, p, e, 1, 1 + l);
        lemma_size_cut(n, b, p + 1);
        lemma_complex_fails(super::wire::VECTOR_OBJECT, b, p, t);
    } else {
        lemma_cut_holds(b, p, e, 1, 1 + l);
        lemma_size_round_trip(n, b, p + 1);
        let p1 = p + 1 + l;
        let t0 = Tables { complexes: t.complexes.push(Model::Null), ..t };
        if b.len() > p1 {
            assert(e.subrange(2 + l, 2 + l + ln) =~= ne);
            if b.len() < p1 + 1 + ln {
                lemma_cut_part(b, p, e, 2 + l, 2 + l + ln);
                lemma_str_cut(name, b, p1 + 1, t0);
            } else {
                lemma_cut_holds(b, p, e, 2 + l, 2 + l + ln);
                lemma_str_round_trip(name, b, p1 + 1, t0);
                let t1 = with_string(t0, name);
                assert(e.subrange(2 + l + ln, e.len() as int) =~= ve);
                lemma_cut_part(b, p, e, 2 + l + ln, e.len() as int);
                lemma_values_cut(entries, b, p1 + 1 + ln, t1);
            }
        }
        lemma_object_vector_payload_fails(n, b, p1, t0);
        lemma_literal_fails(super::wire::VECTOR_OBJECT, n, b, p, p1, t);
    }
}

proof fn lemma_array_payload_fails(n: nat, b: Seq<u8>, p: int, t: Tables)
    requires
        0 <= p,
        pairs_at(b, p, t) == Err::<(Seq<(Seq<char>, Model)>, int, Tables), ErrorModel>(
            ErrorModel::UnexpectedEof,
        ) || (pairs_at(b, p, t) is Ok && p <= pairs_at(b, p, t)->Ok_0.1 <= b.len() && values_at(
            n,
            b,
            pairs_at(b, p, t)->Ok_0.1,
            pairs_at(b, p, t)->Ok_0.2,
        ) == Err::<(Seq<Model>, int, Tables), ErrorModel>(ErrorModel::UnexpectedEof)),
    ensures
        payload_at(super::wire::ARRAY, n, b, p, t) == Err::<(Model, int, Tables), ErrorModel>(
            ErrorModel::UnexpectedEof,
        ),
{
    assert(super::wire::array_at(n, b, p, t) == payload_at(super::wire::ARRAY, n, b, p, t));
}

#[verifier::rlimit(100)]
proof fn lemma_array_cut(v: Model, b: Seq<u8>, p: int, t: Tables)
    requires
        v is Array,
        v->Array_dense_entries.len() < SIZE_LIMIT,
        members_round_trip(v->Array_assoc_entries),
        values_round_trip(v->Array_dense_entries),
        p < b.len(),
        cut(b, p, enc(v)),
    ensures
        value_at(b, p, t) == Err::<(Model, int, Tables), ErrorModel>(ErrorModel::UnexpectedEof),
    decreases v, 1nat,
{
    let assoc = v->Array_assoc_entries;
    let dense = v->Array_dense_entries;
    let e = enc(v);
    let sz = size_bytes(dense.len());
    let l = sz.len() as int;
    let pe = enc_pair_list(assoc) + str_bytes(Seq::empty());
    let ve = enc_values(dense);
    let lp = pe.len() as int;
    assert(e =~= seq![super::wire::ARRAY] + sz + pe + ve);
    lemma_cut_at(b, p, e, 0);
    assert(e.subrange(1, 1 + l) =~= sz);
    if b.len() < p + 1 + l {
        lemma_cut_part(b, p, e, 1, 1 + l);
        lemma_size_cut(dense.len(), b, p + 1);
        lemma_complex_fails(super::wire::ARRAY, b, p, t);
    } else {
        lemma_cut_holds(b, p, e, 1, 1 + l);
        lemma_size_round_trip(dense.len(), b, p + 1);
        let p1 = p + 1 + l;
        let t0 = Tables { complexes: t.complexes.push(Model::Null), ..t };
        assert(e.subrange(1 + l, 1 + l + lp) =~= pe);
        if b.len() < p1 + lp {
            lemma_cut_part(b, p, e, 1 + l, 1 + l + lp);
            lemma_pairs_cut(assoc, b, p1, t0);
        } else {
            lemma_cut_holds(b, p, e, 1 + l, 1 + l + lp);
            lemma_pairs_round_trip(assoc, b, p1, t0);
            let t1 = pairs_at(b, p1, t0)->Ok_0.2;
            assert(e.subrange(1 + l + lp, e.len() as int) =~= ve);
            lemma_cut_part(b, p, e, 1 + l + lp, e.len() as int);
            lemma_values_cut(dense, b, p1 + lp, t1);
        }
        lemma_array_payload_fails(dense.len(), b, p1, t0);
        lemma_literal_fails(super::wire::ARRAY, dense.len(), b, p, p1, t);
    }
}

/// A cut list of key-value pairs runs out of input.
pub proof fn lemma_pairs_cut(es: Seq<(Seq<char>, Model)>, b: Seq<u8>, p: int, t: Tables)
    requires
        members_round_trip(es),
        cut(b, p, enc_pair_list(es) + str_bytes(Seq::empty())),
    ensures
        pairs_at(b, p, t) == Err::<(Seq<(Seq<char>, Model)>, int, Tables), ErrorModel>(
            ErrorModel::UnexpectedEof,
        ),
    decreases es, 0nat,
{
    let e = enc_pair_list(es) + str_bytes(Seq::empty());
    assert(utf8(Seq::<char>::empty()) =~= Seq::<u8>::empty());
    if es.len() == 0 {
        assert(e =~= str_bytes(Seq::empty()));
        lemma_str_cut(Seq::empty(), b, p, t);
    } else {
        let (k, v) = es[0];
        let rest = es.drop_first();
        super::round_trip::lemma_members_front(es);
        let ke = str_bytes(k);
        let ve = enc(v);
        let re = enc_pair_list(rest) + str_bytes(Seq::empty());
        let lk = ke.len() as int;
        let lv = ve.len() as int;
        assert(e =~= ke + ve + re);
        assert(e.subrange(0, lk) =~= ke);
        if b.len() < p + lk {
            lemma_cut_part(b, p, e, 0, lk);
            lemma_str_cut(k, b, p, t);
        } else {
            lemma_cut_holds(b, p, e, 0, lk);
            lemma_str_round_trip(k, b, p, t);
            let q = p + lk;
            let t1 = with_string(t, k);
            assert(e.subrange(lk, lk + lv) =~= ve);
            assert(decreases_to!(es => es[0]));
            if b.len() < q + lv {
                lemma_cut_part(b, p, e, lk, lk + lv);
                lemma_value_cut(v, b, q, t1);
            } else {
                lemma_cut_holds(b, p, e, lk, lk + lv);
                lemma_value_round_trip(v, b, q, t1);
                let t2 = value_at(b, q, t1)->Ok_0.2;
                assert(e.subrange(lk + lv, e.len() as int) =~= re);
                lemma_cut_part(b, p, e, lk + lv, e.len() as int);
                lemma_pairs_cut(rest, b, q + lv, t2);
            }
        }
    }
}

/// A cut list of values runs out of input.
pub proof fn lemma_values_cut(vs: Seq<Model>, b: Seq<u8>, p: int, t: Tables)
    requires
        values_round_trip(vs),
        cut(b, p, enc_values(vs)),
    ensures
        values_at(vs.len(), b, p, t) == Err::<(Seq<Model>, int, Tables), ErrorModel>(
            ErrorModel::UnexpectedEof,
        ),
    decreases vs, 0nat,
{
    let e = enc_values(vs);
    if vs.len() > 0 {
        let v = vs[0];
        let rest = vs.drop_first();
        super::round_trip::lemma_values_front(vs);
        let ve = enc(v);
        let lv = ve.len() as int;
        assert(e.subrange(0, lv) =~= ve);
        if b.len() < p + lv {
            lemma_cut_part(b, p, e, 0, lv);
            lemma_value_cut(v, b, p, t);
        } else {
            lemma_cut_holds(b, p, e, 0, lv);
            lemma_value_round_trip(v, b, p, t);
            let t1 = value_at(b, p, t)->Ok_0.2;
            assert(e.subrange(lv, e.len() as int) =~= enc_values(rest));
            lemma_cut_part(b, p, e, lv, e.len() as int);
            lemma_values_cut(rest, b, p + lv, t1);
        }
    }
}

} // verus!
