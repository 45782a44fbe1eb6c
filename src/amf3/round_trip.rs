//! Decoding the encoding of an AMF3 value gives the value back.
use super::wire::{
    enc_dict, i32s_bytes, u32s_bytes, u64s_bytes, complex_at, enc, enc_pair_list, enc_values, encodable, i29, literal_at, pairs_at,
    pairs_encodable, payload_at, size_bytes, size_or_index, sor_at, str_at, str_bytes, text_at,
    u29_at, u29_bytes, u29_of, value_at, values_at, values_encodable, SizeOrIndex, Tables,
    SIZE_LIMIT,
};
use super::Model;
use crate::bytes::{be32, be64, lemma_get64, utf8};
use crate::date::{bits_of, lemma_millis_round_trip};
use crate::error::ErrorModel;
use vstd::prelude::*;

verus! {

/// `b` holds `e` at `p`, so it holds each part of `e` at the matching place.
proof fn lemma_holds(b: Seq<u8>, p: int, e: Seq<u8>, i: int, j: int)
    requires
        0 <= p,
        p + e.len() <= b.len(),
        b.subrange(p, p + e.len()) == e,
        0 <= i <= j <= e.len(),
    ensures
        b.subrange(p + i, p + j) == e.subrange(i, j),
{
    assert forall|k: int| 0 <= k < j - i implies b.subrange(p + i, p + j)[k] == e.subrange(i, j)[k] by {
        assert(b.subrange(p, p + e.len())[i + k] == b[p + i + k]);
    }
    assert(b.subrange(p + i, p + j) =~= e.subrange(i, j));
}

/// The shortest form of a variable-length integer reads back as it.
pub proof fn lemma_u29_round_trip(u: u32, b: Seq<u8>, p: int)
    requires
        u < 0x2000_0000,
        0 <= p,
        p + u29_bytes(u).len() <= b.len(),
        b.subrange(p, p + u29_bytes(u).len()) == u29_bytes(u),
    ensures
        u29_at(b, p) == Ok::<(u32, int), ErrorModel>((u, p + u29_bytes(u).len())),
{
    reveal(u29_at);
    let e = u29_bytes(u);
    if u < 0x80 {
        assert(u < 0x80 ==> (u as u8) < 0x80 && (u as u8) as u32 == u) by (bit_vector);
        assert(b.subrange(p, p + e.len())[0] == b[p]);
    } else if u < 0x4000 {
        let x0 = ((u >> 7) | 0x80) as u8;
        let x1 = (u & 0x7F) as u8;
        assert(0x80 <= u < 0x4000 && x0 == ((u >> 7) | 0x80) as u8 && x1 == (u & 0x7F) as u8
            ==> x0 >= 0x80 && x1 < 0x80 && ((((x0 & 0x7F) as u32) << 7) | ((x1 & 0x7F) as u32))
            == u) by (bit_vector);
        assert(e[0] == x0 && e[1] == x1);
        assert(b.subrange(p, p + e.len())[0] == b[p]);
        assert(b.subrange(p, p + e.len())[1] == b[p + 1]);
    } else if u < 0x20_0000 {
        let x0 = ((u >> 14) | 0x80) as u8;
        let x1 = (((u >> 7) & 0x7F) | 0x80) as u8;
        let x2 = (u & 0x7F) as u8;
        assert(0x4000 <= u < 0x20_0000 && x0 == ((u >> 14) | 0x80) as u8 && x1 == (((u >> 7)
            & 0x7F) | 0x80) as u8 && x2 == (u & 0x7F) as u8 ==> x0 >= 0x80 && x1 >= 0x80 && x2
            < 0x80 && ((((((x0 & 0x7F) as u32) << 7) | ((x1 & 0x7F) as u32)) << 7) | ((x2
            & 0x7F) as u32)) == u) by (bit_vector);
        assert(e[0] == x0 && e[1] == x1 && e[2] == x2);
        assert(b.subrange(p, p + e.len())[0] == b[p]);
        assert(b.subrange(p, p + e.len())[1] == b[p + 1]);
        assert(b.subrange(p, p + e.len())[2] == b[p + 2]);
    } else {
        let x0 = ((u >> 22) | 0x80) as u8;
        let x1 = (((u >> 15) & 0x7F) | 0x80) as u8;
        let x2 = (((u >> 8) & 0x7F) | 0x80) as u8;
        let x3 = (u & 0xFF) as u8;
        assert(0x20_0000 <= u < 0x2000_0000 && x0 == ((u >> 22) | 0x80) as u8 && x1 == (((u
            >> 15) & 0x7F) | 0x80) as u8 && x2 == (((u >> 8) & 0x7F) | 0x80) as u8 && x3 == (u
            & 0xFF) as u8 ==> x0 >= 0x80 && x1 >= 0x80 && x2 >= 0x80 && ((((((((x0 & 0x7F) as u32)
            << 7) | ((x1 & 0x7F) as u32)) << 7) | ((x2 & 0x7F) as u32)) << 8) | (x3 as u32)) == u)
            by (bit_vector);
        assert(e[0] == x0 && e[1] == x1 && e[2] == x2 && e[3] == x3);
        assert(b.subrange(p, p + e.len())[0] == b[p]);
        assert(b.subrange(p, p + e.len())[1] == b[p + 1]);
        assert(b.subrange(p, p + e.len())[2] == b[p + 2]);
        assert(b.subrange(p, p + e.len())[3] == b[p + 3]);
    }
}

/// A length written as a literal reads back as that length.
pub proof fn lemma_size_round_trip(n: nat, b: Seq<u8>, p: int)
    requires
        n < SIZE_LIMIT,
        0 <= p,
        p + size_bytes(n).len() <= b.len(),
        b.subrange(p, p + size_bytes(n).len()) == size_bytes(n),
    ensures
        sor_at(b, p) == Ok::<(SizeOrIndex, int), ErrorModel>(
            (SizeOrIndex::Size(n as usize), p + size_bytes(n).len()),
        ),
{
    let u = (2 * n + 1) as u32;
    lemma_u29_round_trip(u, b, p);
    assert(size_or_index(u) == SizeOrIndex::Size(n as usize));
}

/// The table of strings after reading `s` as a literal.
pub open spec fn with_string(t: Tables, s: Seq<char>) -> Tables {
    if s.len() > 0 {
        Tables { strings: t.strings.push(s), ..t }
    } else {
        t
    }
}

/// A string written as a literal reads back as that string.
pub proof fn lemma_str_round_trip(s: Seq<char>, b: Seq<u8>, p: int, t: Tables)
    requires
        utf8(s).len() < SIZE_LIMIT,
        0 <= p,
        p + str_bytes(s).len() <= b.len(),
        b.subrange(p, p + str_bytes(s).len()) == str_bytes(s),
    ensures
        str_at(b, p, t) == Ok::<(Seq<char>, int, Tables), ErrorModel>(
            (s, p + str_bytes(s).len(), with_string(t, s)),
        ),
{
    let k = utf8(s);
    let sz = size_bytes(k.len());
    let e = str_bytes(s);
    lemma_holds(b, p, e, 0, sz.len() as int);
    assert(e.subrange(0, sz.len() as int) =~= sz);
    lemma_size_round_trip(k.len(), b, p);
    lemma_holds(b, p, e, sz.len() as int, e.len() as int);
    assert(e.subrange(sz.len() as int, e.len() as int) =~= k);
    vstd::utf8::encode_utf8_valid_utf8(s);
    vstd::utf8::encode_utf8_decode_utf8(s);
    assert(text_at(b, p + sz.len(), k.len() as int) == Ok::<(Seq<char>, int), ErrorModel>(
        (s, p + e.len()),
    ));
}

/// An AMF3 integer in [-2^28, 2^28 - 1] reads back as itself.
pub proof fn lemma_integer_round_trip(i: i32, b: Seq<u8>, p: int, t: Tables)
    requires
        -0x1000_0000 <= i < 0x1000_0000,
        0 <= p,
        p + enc(Model::Integer(i)).len() <= b.len(),
        b.subrange(p, p + enc(Model::Integer(i)).len()) == enc(Model::Integer(i)),
    ensures
        value_at(b, p, t) == Ok::<(Model, int, Tables), ErrorModel>(
            (Model::Integer(i), p + enc(Model::Integer(i)).len(), t),
        ),
{
    let u = u29_of(i);
    let e = enc(Model::Integer(i));
    assert(b.subrange(p, p + e.len())[0] == b[p]);
    lemma_holds(b, p, e, 1, e.len() as int);
    assert(e.subrange(1, e.len() as int) =~= u29_bytes(u));
    lemma_u29_round_trip(u, b, p + 1);
    assert(i29(u) == i);
}

/// The AMF3 values whose round trip is proved here: undefined, null,
/// booleans, integers in the 29-bit range, doubles, strings and XML texts
/// shorter than 2^28 bytes, dates below 2^53 milliseconds, byte arrays,
/// vectors of numbers, and arrays, dictionaries and object vectors of such
/// values, with non-empty associative keys and no element type named `*`.
pub open spec fn round_trips(v: Model) -> bool
    decreases v,
{
    match v {
        Model::Undefined | Model::Null | Model::Boolean(_) | Model::Double(_) => true,
        Model::Integer(i) => -0x1000_0000 <= i < 0x1000_0000,
        Model::String(s) | Model::XmlDocument(s) | Model::Xml(s) => utf8(s).len() < SIZE_LIMIT,
        Model::Date { unix_time } => unix_time < 0x20_0000_0000_0000,
        Model::ByteArray(bs) => bs.len() < SIZE_LIMIT,
        Model::IntVector { entries, .. } => entries.len() < SIZE_LIMIT,
        Model::UintVector { entries, .. } => entries.len() < SIZE_LIMIT,
        Model::DoubleVector { entries, .. } => entries.len() < SIZE_LIMIT,
        Model::Array { assoc_entries, dense_entries } => dense_entries.len() < SIZE_LIMIT
            && members_round_trip(assoc_entries) && values_round_trip(dense_entries),
        Model::Dictionary { entries, .. } => entries.len() < SIZE_LIMIT && entries_round_trip(
            entries,
        ),
        Model::ObjectVector { class_name, entries, .. } => entries.len() < SIZE_LIMIT
            && type_name_round_trips(class_name) && values_round_trip(entries),
        _ => false,
    }
}

pub open spec fn values_round_trip(vs: Seq<Model>) -> bool
    decreases vs,
{
    if vs.len() == 0 {
        true
    } else {
        values_round_trip(vs.drop_last()) && round_trips(vs.last())
    }
}

/// An element type name that reads back as itself: `*` reads back as no
/// name.
pub open spec fn type_name_round_trips(n: Option<Seq<char>>) -> bool {
    match n {
        Some(s) => utf8(s).len() < SIZE_LIMIT && s != seq!['*'],
        None => true,
    }
}

/// The name that an object vector's element type is written as.
pub open spec fn type_name_written(n: Option<Seq<char>>) -> Seq<char> {
    match n {
        Some(s) => s,
        None => seq!['*'],
    }
}

/// `*` is written as the one byte 0x2A.
pub proof fn lemma_star()
    ensures
        utf8(seq!['*']) == seq![0x2Au8],
        str_bytes(seq!['*']) == seq![0x03u8, 0x2Au8],
{
    let s = seq!['*'];
    assert(s[0] as u32 == 42);
    assert((42u32 & 0x7F) as u8 == 42u8) by (bit_vector);
    assert(s.drop_first() =~= Seq::<char>::empty());
    assert(vstd::utf8::encode_utf8(s.drop_first()) =~= Seq::<u8>::empty());
    assert(utf8(s) =~= seq![0x2Au8]);
    assert(str_bytes(s) =~= seq![0x03u8, 0x2Au8]);
}

pub proof fn lemma_type_name_bytes(n: Option<Seq<char>>)
    requires
        type_name_round_trips(n),
    ensures
        super::wire::type_name_bytes(n) == str_bytes(type_name_written(n)),
        utf8(type_name_written(n)).len() < SIZE_LIMIT,
{
    lemma_star();
}

pub proof fn lemma_object_vector_payload(
    n: nat,
    b: Seq<u8>,
    p: int,
    t: Tables,
    s: Seq<char>,
    p2: int,
    t1: Tables,
    vals: Seq<Model>,
    p3: int,
    t2: Tables,
)
    requires
        0 <= p < b.len(),
        p <= p2 <= b.len(),
        str_at(b, p + 1, t) == Ok::<(Seq<char>, int, Tables), ErrorModel>((s, p2, t1)),
        values_at(n, b, p2, t1) == Ok::<(Seq<Model>, int, Tables), ErrorModel>((vals, p3, t2)),
    ensures
        payload_at(super::wire::VECTOR_OBJECT, n, b, p, t) == Ok::<(Model, int, Tables), ErrorModel>(
            (
                Model::ObjectVector {
                    class_name: if s == seq!['*'] {
                        None
                    } else {
                        Some(s)
                    },
                    is_fixed: b[p] != 0,
                    entries: vals,
                },
                p3,
                t2,
            ),
        ),
{
    assert(super::wire::vector_object_at(n, b, p, t) == payload_at(super::wire::VECTOR_OBJECT, n, b, p, t));
}

#[verifier::rlimit(100)]
proof fn lemma_object_vector_round_trip(v: Model, b: Seq<u8>, p: int, t: Tables)
    requires
        v is ObjectVector,
        v->ObjectVector_entries.len() < SIZE_LIMIT,
        type_name_round_trips(v->ObjectVector_class_name),
        values_round_trip(v->ObjectVector_entries),
        0 <= p,
        p + enc(v).len() <= b.len(),
        b.subrange(p, p + enc(v).len()) == enc(v),
    ensures
        value_at(b, p, t) is Ok,
        value_at(b, p, t)->Ok_0.0 == v,
        value_at(b, p, t)->Ok_0.1 == p + enc(v).len(),
    decreases v, 1nat,
{
    let entries = v->ObjectVector_entries;
    let cn = v->ObjectVector_class_name;
    let fixed = v->ObjectVector_is_fixed;
    let e = enc(v);
    let n = entries.len();
    let sz = size_bytes(n);
    let l = sz.len() as int;
    let name = type_name_written(cn);
    lemma_type_name_bytes(cn);
    let ne = str_bytes(name);
    let ln = ne.len() as int;
    let ve = enc_values(entries);
    assert(e =~= seq![super::wire::VECTOR_OBJECT] + sz + seq![fixed as u8] + ne + ve);
    assert(b.subrange(p, p + e.len())[0] == b[p]);
    lemma_holds(b, p, e, 1, 1 + l);
    assert(e.subrange(1, 1 + l) =~= sz);
    lemma_size_round_trip(n, b, p + 1);
    let p1 = p + 1 + l;
    assert(b.subrange(p, p + e.len())[1 + l] == b[p1]);
    assert((fixed as u8 != 0) == fixed);
    let t0 = Tables { complexes: t.complexes.push(Model::Null), ..t };
    lemma_holds(b, p, e, 2 + l, 2 + l + ln);
    assert(e.subrange(2 + l, 2 + l + ln) =~= ne);
    lemma_str_round_trip(name, b, p1 + 1, t0);
    let t1 = with_string(t0, name);
    lemma_holds(b, p, e, 2 + l + ln, e.len() as int);
    assert(e.subrange(2 + l + ln, e.len() as int) =~= ve);
    lemma_values_round_trip(entries, b, p1 + 1 + ln, t1);
    let r = values_at(n, b, p1 + 1 + ln, t1);
    lemma_object_vector_payload(n, b, p1, t0, name, p1 + 1 + ln, t1, r->Ok_0.0, r->Ok_0.1, r->Ok_0.2);
    lemma_literal(super::wire::VECTOR_OBJECT, n, b, p, p1, t, v, p + e.len());
}

pub open spec fn entries_round_trip(es: Seq<(Model, Model)>) -> bool
    decreases es,
{
    if es.len() == 0 {
        true
    } else {
        entries_round_trip(es.drop_last()) && round_trips(es.last().0) && round_trips(es.last().1)
    }
}

pub open spec fn members_round_trip(es: Seq<(Seq<char>, Model)>) -> bool
    decreases es,
{
    if es.len() == 0 {
        true
    } else {
        members_round_trip(es.drop_last()) && 0 < es.last().0.len() && utf8(es.last().0).len()
            < SIZE_LIMIT && round_trips(es.last().1)
    }
}

pub proof fn lemma_values_front(vs: Seq<Model>)
    requires
        vs.len() > 0,
    ensures
        values_round_trip(vs) == (round_trips(vs[0]) && values_round_trip(vs.drop_first())),
        enc_values(vs) == enc(vs[0]) + enc_values(vs.drop_first()),
    decreases vs.len(),
{
    if vs.len() == 1 {
        assert(vs.drop_last() =~= Seq::<Model>::empty());
        assert(vs.drop_first() =~= Seq::<Model>::empty());
        assert(enc_values(vs) =~= enc(vs[0]) + enc_values(vs.drop_first()));
    } else {
        lemma_values_front(vs.drop_last());
        assert(vs.drop_last().drop_first() =~= vs.drop_first().drop_last());
        assert(vs.drop_first().last() == vs.last());
        assert(enc_values(vs) =~= enc(vs[0]) + enc_values(vs.drop_first()));
    }
}

pub proof fn lemma_members_front(es: Seq<(Seq<char>, Model)>)
    requires
        es.len() > 0,
    ensures
        members_round_trip(es) == (0 < es[0].0.len() && utf8(es[0].0).len() < SIZE_LIMIT
            && round_trips(es[0].1) && members_round_trip(es.drop_first())),
        enc_pair_list(es) == str_bytes(es[0].0) + enc(es[0].1) + enc_pair_list(es.drop_first()),
    decreases es.len(),
{
    if es.len() == 1 {
        assert(es.drop_last() =~= Seq::<(Seq<char>, Model)>::empty());
        assert(es.drop_first() =~= Seq::<(Seq<char>, Model)>::empty());
        assert(enc_pair_list(es) =~= str_bytes(es[0].0) + enc(es[0].1) + enc_pair_list(
            es.drop_first(),
        ));
    } else {
        lemma_members_front(es.drop_last());
        assert(es.drop_last().drop_first() =~= es.drop_first().drop_last());
        assert(es.drop_first().last() == es.last());
        assert(enc_pair_list(es) =~= str_bytes(es[0].0) + enc(es[0].1) + enc_pair_list(
            es.drop_first(),
        ));
    }
}

/// A literal complex value whose payload reads back reads back as a value.
proof fn lemma_literal(m: u8, n: nat, b: Seq<u8>, p: int, p1: int, t: Tables, v: Model, q: int)
    requires
        super::wire::XML_DOC <= m <= super::wire::DICTIONARY,
        0 <= p < p1 <= b.len(),
        b[p] == m,
        sor_at(b, p + 1) == Ok::<(SizeOrIndex, int), ErrorModel>((SizeOrIndex::Size(n as usize), p1)),
        n < SIZE_LIMIT,
        payload_at(m, n, b, p1, Tables { complexes: t.complexes.push(Model::Null), ..t }) is Ok,
        payload_at(m, n, b, p1, Tables { complexes: t.complexes.push(Model::Null), ..t })->Ok_0.0 == v,
        payload_at(m, n, b, p1, Tables { complexes: t.complexes.push(Model::Null), ..t })->Ok_0.1 == q,
    ensures
        value_at(b, p, t) is Ok,
        value_at(b, p, t)->Ok_0.0 == v,
        value_at(b, p, t)->Ok_0.1 == q,
{
    assert(literal_at(m, n, b, p1, t) is Ok);
    assert(complex_at(m, b, p, t) is Ok);
}

/// Decoding, at any position and with any tables, the bytes of a value that
/// round-trips gives the value and moves past its encoding.
pub proof fn lemma_value_round_trip(v: Model, b: Seq<u8>, p: int, t: Tables)
    requires
        round_trips(v),
        0 <= p,
        p + enc(v).len() <= b.len(),
        b.subrange(p, p + enc(v).len()) == enc(v),
    ensures
        value_at(b, p, t) is Ok,
        value_at(b, p, t)->Ok_0.0 == v,
        value_at(b, p, t)->Ok_0.1 == p + enc(v).len(),
    decreases v, 2nat,
{
    let e = enc(v);
    assert(b.subrange(p, p + e.len())[0] == b[p]);
    match v {
        Model::Integer(i) => lemma_integer_round_trip(i, b, p, t),
        Model::Double(d) => {
            lemma_holds(b, p, e, 1, 9);
            assert(e.subrange(1, 9) =~= be64(d));
            lemma_get64(b, p + 1, d);
        },
        Model::String(s) => {
            lemma_holds(b, p, e, 1, e.len() as int);
            assert(e.subrange(1, e.len() as int) =~= str_bytes(s));
            lemma_str_round_trip(s, b, p + 1, t);
        },
        Model::XmlDocument(s) => lemma_text_round_trip(v, s, b, p, t),
        Model::Xml(s) => lemma_text_round_trip(v, s, b, p, t),
        Model::Date { unix_time } => lemma_date_round_trip(unix_time, b, p, t),
        Model::ByteArray(bs) => lemma_bytes_round_trip(bs, b, p, t),
        Model::Array { assoc_entries, dense_entries } => lemma_array_round_trip(v, b, p, t),
        Model::Dictionary { .. } => lemma_dictionary_round_trip(v, b, p, t),
        Model::ObjectVector { .. } => lemma_object_vector_round_trip(v, b, p, t),
        Model::IntVector { .. } => lemma_vector_round_trip(v, b, p, t),
        Model::UintVector { .. } => lemma_vector_round_trip(v, b, p, t),
        Model::DoubleVector { .. } => lemma_vector_round_trip(v, b, p, t),
        _ => {},
    }
}

proof fn lemma_text_round_trip(v: Model, s: Seq<char>, b: Seq<u8>, p: int, t: Tables)
    requires
        v == Model::XmlDocument(s) || v == Model::Xml(s),
        utf8(s).len() < SIZE_LIMIT,
        0 <= p,
        p + enc(v).len() <= b.len(),
        b.subrange(p, p + enc(v).len()) == enc(v),
    ensures
        value_at(b, p, t) is Ok,
        value_at(b, p, t)->Ok_0.0 == v,
        value_at(b, p, t)->Ok_0.1 == p + enc(v).len(),
{
    let e = enc(v);
    let k = utf8(s);
    let sz = size_bytes(k.len());
    let m = e[0];
    assert(b.subrange(p, p + e.len())[0] == b[p]);
    lemma_holds(b, p, e, 1, 1 + (sz.len() as int));
    assert(e.subrange(1, 1 + (sz.len() as int)) =~= sz);
    lemma_size_round_trip(k.len(), b, p + 1);
    let p1 = p + 1 + (sz.len() as int);
    lemma_holds(b, p, e, 1 + (sz.len() as int), e.len() as int);
    assert(e.subrange(1 + (sz.len() as int), e.len() as int) =~= k);
    vstd::utf8::encode_utf8_valid_utf8(s);
    vstd::utf8::encode_utf8_decode_utf8(s);
    assert(text_at(b, p1, k.len() as int) == Ok::<(Seq<char>, int), ErrorModel>((s, p + e.len())));
    lemma_literal(m, k.len(), b, p, p1, t, v, p + e.len());
}

proof fn lemma_date_round_trip(unix_time: u64, b: Seq<u8>, p: int, t: Tables)
    requires
        unix_time < 0x20_0000_0000_0000,
        0 <= p,
        p + enc((Model::Date { unix_time })).len() <= b.len(),
        b.subrange(p, p + enc((Model::Date { unix_time })).len()) == enc((Model::Date { unix_time })),
    ensures
        value_at(b, p, t) is Ok,
        value_at(b, p, t)->Ok_0.0 == (Model::Date { unix_time }),
        value_at(b, p, t)->Ok_0.1 == p + enc((Model::Date { unix_time })).len(),
{
    let v = Model::Date { unix_time };
    let e = enc(v);
    let sz = size_bytes(0);
    assert((sz.len() as int) == 1);
    assert(b.subrange(p, p + e.len())[0] == b[p]);
    lemma_holds(b, p, e, 1, 2);
    assert(e.subrange(1, 2) =~= sz);
    lemma_size_round_trip(0, b, p + 1);
    lemma_holds(b, p, e, 2, 10);
    assert(e.subrange(2, 10) =~= be64(bits_of(unix_time)));
    lemma_get64(b, p + 2, bits_of(unix_time));
    lemma_millis_round_trip(unix_time);
    lemma_literal(super::wire::DATE, 0, b, p, p + 2, t, v, p + 10);
}

proof fn lemma_bytes_round_trip(bs: Seq<u8>, b: Seq<u8>, p: int, t: Tables)
    requires
        bs.len() < SIZE_LIMIT,
        0 <= p,
        p + enc(Model::ByteArray(bs)).len() <= b.len(),
        b.subrange(p, p + enc(Model::ByteArray(bs)).len()) == enc(Model::ByteArray(bs)),
    ensures
        value_at(b, p, t) is Ok,
        value_at(b, p, t)->Ok_0.0 == Model::ByteArray(bs),
        value_at(b, p, t)->Ok_0.1 == p + enc(Model::ByteArray(bs)).len(),
{
    let v = Model::ByteArray(bs);
    let e = enc(v);
    let sz = size_bytes(bs.len());
    assert(b.subrange(p, p + e.len())[0] == b[p]);
    lemma_holds(b, p, e, 1, 1 + (sz.len() as int));
    assert(e.subrange(1, 1 + (sz.len() as int)) =~= sz);
    lemma_size_round_trip(bs.len(), b, p + 1);
    let p1 = p + 1 + (sz.len() as int);
    lemma_holds(b, p, e, 1 + (sz.len() as int), e.len() as int);
    assert(e.subrange(1 + (sz.len() as int), e.len() as int) =~= bs);
    lemma_literal(super::wire::BYTE_ARRAY, bs.len(), b, p, p1, t, v, p + e.len());
}

pub proof fn lemma_i32s_bytes(es: Seq<i32>, b: Seq<u8>, p: int)
    requires
        0 <= p,
        p + i32s_bytes(es).len() <= b.len(),
        b.subrange(p, p + i32s_bytes(es).len()) == i32s_bytes(es),
    ensures
        i32s_bytes(es).len() == 4 * es.len(),
        super::wire::i32s_at(b, p, es.len()) == es,
    decreases es.len(),
{
    if es.len() > 0 {
        let init = es.drop_last();
        let e = i32s_bytes(es);
        let ei = i32s_bytes(init);
        let x = es.last();
        assert(e == ei + be32(x as u32));
        lemma_holds(b, p, e, 0, ei.len() as int);
        assert(e.subrange(0, ei.len() as int) =~= ei);
        lemma_i32s_bytes(init, b, p);
        lemma_holds(b, p, e, ei.len() as int, e.len() as int);
        assert(e.subrange(ei.len() as int, e.len() as int) =~= be32(x as u32));
        crate::bytes::lemma_get32(b, p + ei.len(), x as u32);
        assert(#[verifier::truncate] ((x as u32) as i32) == x) by (bit_vector);
        assert forall|j: int| 0 <= j < init.len() implies super::wire::i32s_at(b, p, es.len())[j] == es[j] by {
            assert(super::wire::i32s_at(b, p, init.len())[j] == init[j]);
        }
        assert(super::wire::i32s_at(b, p, es.len()) =~= es);
    }
}

pub proof fn lemma_u32s_bytes(es: Seq<u32>, b: Seq<u8>, p: int)
    requires
        0 <= p,
        p + u32s_bytes(es).len() <= b.len(),
        b.subrange(p, p + u32s_bytes(es).len()) == u32s_bytes(es),
    ensures
        u32s_bytes(es).len() == 4 * es.len(),
        super::wire::u32s_at(b, p, es.len()) == es,
    decreases es.len(),
{
    if es.len() > 0 {
        let init = es.drop_last();
        let e = u32s_bytes(es);
        let ei = u32s_bytes(init);
        let x = es.last();
        assert(e == ei + be32(x));
        lemma_holds(b, p, e, 0, ei.len() as int);
        assert(e.subrange(0, ei.len() as int) =~= ei);
        lemma_u32s_bytes(init, b, p);
        lemma_holds(b, p, e, ei.len() as int, e.len() as int);
        assert(e.subrange(ei.len() as int, e.len() as int) =~= be32(x));
        crate::bytes::lemma_get32(b, p + ei.len(), x);
        assert forall|j: int| 0 <= j < init.len() implies super::wire::u32s_at(b, p, es.len())[j] == es[j] by {
            assert(super::wire::u32s_at(b, p, init.len())[j] == init[j]);
        }
        assert(super::wire::u32s_at(b, p, es.len()) =~= es);
    }
}

pub proof fn lemma_u64s_bytes(es: Seq<u64>, b: Seq<u8>, p: int)
    requires
        0 <= p,
        p + u64s_bytes(es).len() <= b.len(),
        b.subrange(p, p + u64s_bytes(es).len()) == u64s_bytes(es),
    ensures
        u64s_bytes(es).len() == 8 * es.len(),
        super::wire::u64s_at(b, p, es.len()) == es,
    decreases es.len(),
{
    if es.len() > 0 {
        let init = es.drop_last();
        let e = u64s_bytes(es);
        let ei = u64s_bytes(init);
        let x = es.last();
        assert(e == ei + be64(x));
        lemma_holds(b, p, e, 0, ei.len() as int);
        assert(e.subrange(0, ei.len() as int) =~= ei);
        lemma_u64s_bytes(init, b, p);
        lemma_holds(b, p, e, ei.len() as int, e.len() as int);
        assert(e.subrange(ei.len() as int, e.len() as int) =~= be64(x));
        lemma_get64(b, p + ei.len(), x);
        assert forall|j: int| 0 <= j < init.len() implies super::wire::u64s_at(b, p, es.len())[j] == es[j] by {
            assert(super::wire::u64s_at(b, p, init.len())[j] == init[j]);
        }
        assert(super::wire::u64s_at(b, p, es.len()) =~= es);
    }
}

/// The length of the elements of a vector of numbers, in bytes.
pub open spec fn elements_bytes(v: Model) -> Seq<u8> {
    match v {
        Model::IntVector { entries, .. } => i32s_bytes(entries),
        Model::UintVector { entries, .. } => u32s_bytes(entries),
        Model::DoubleVector { entries, .. } => u64s_bytes(entries),
        _ => Seq::empty(),
    }
}

pub open spec fn vector_len(v: Model) -> nat {
    match v {
        Model::IntVector { entries, .. } => entries.len(),
        Model::UintVector { entries, .. } => entries.len(),
        Model::DoubleVector { entries, .. } => entries.len(),
        _ => 0,
    }
}

pub open spec fn vector_fixed(v: Model) -> bool {
    match v {
        Model::IntVector { is_fixed, .. } => is_fixed,
        Model::UintVector { is_fixed, .. } => is_fixed,
        Model::DoubleVector { is_fixed, .. } => is_fixed,
        _ => false,
    }
}

pub proof fn lemma_entries_front(es: Seq<(Model, Model)>)
    requires
        es.len() > 0,
    ensures
        entries_round_trip(es) == (round_trips(es[0].0) && round_trips(es[0].1) && entries_round_trip(
            es.drop_first(),
        )),
        enc_dict(es) == enc(es[0].0) + enc(es[0].1) + enc_dict(es.drop_first()),
    decreases es.len(),
{
    if es.len() == 1 {
        assert(es.drop_last() =~= Seq::<(Model, Model)>::empty());
        assert(es.drop_first() =~= Seq::<(Model, Model)>::empty());
        assert(enc_dict(es) =~= enc(es[0].0) + enc(es[0].1) + enc_dict(es.drop_first()));
    } else {
        lemma_entries_front(es.drop_last());
        assert(es.drop_last().drop_first() =~= es.drop_first().drop_last());
        assert(es.drop_first().last() == es.last());
        assert(enc_dict(es) =~= enc(es[0].0) + enc(es[0].1) + enc_dict(es.drop_first()));
    }
}

pub proof fn lemma_dict_cons(
    n: nat,
    b: Seq<u8>,
    p: int,
    t: Tables,
    k: Model,
    p1: int,
    t1: Tables,
    v: Model,
    p2: int,
    t2: Tables,
)
    requires
        n > 0,
        0 <= p < p1 < p2 <= b.len(),
        value_at(b, p, t) is Ok,
        value_at(b, p, t)->Ok_0 == (k, p1, t1),
        value_at(b, p1, t1) is Ok,
        value_at(b, p1, t1)->Ok_0 == (v, p2, t2),
    ensures
        super::wire::dict_at(n, b, p, t) == match super::wire::dict_at((n - 1) as nat, b, p2, t2) {
            Err(e) => Err(e),
            Ok((ps, p3, t3)) => Ok((seq![(k, v)] + ps, p3, t3)),
        },
{
}

/// Decoding the bytes of dictionary entries gives them back.
#[verifier::spinoff_prover]
#[verifier::rlimit(100)]
pub proof fn lemma_entries_round_trip(es: Seq<(Model, Model)>, b: Seq<u8>, p: int, t: Tables)
    requires
        entries_round_trip(es),
        0 <= p,
        p + enc_dict(es).len() <= b.len(),
        b.subrange(p, p + enc_dict(es).len()) == enc_dict(es),
    ensures
        super::wire::dict_at(es.len(), b, p, t) is Ok,
        super::wire::dict_at(es.len(), b, p, t)->Ok_0.0 == es,
        super::wire::dict_at(es.len(), b, p, t)->Ok_0.1 == p + enc_dict(es).len(),
    decreases es, 0nat,
{
    let e = enc_dict(es);
    if es.len() > 0 {
        let (k, v) = es[0];
        let rest = es.drop_first();
        lemma_entries_front(es);
        let ke = enc(k);
        let ve = enc(v);
        let re = enc_dict(rest);
        let lk = ke.len() as int;
        let lv = ve.len() as int;
        assert(e =~= ke + ve + re);
        lemma_holds(b, p, e, 0, lk);
        assert(e.subrange(0, lk) =~= ke);
        assert(decreases_to!(es => es[0]));
        lemma_value_round_trip(k, b, p, t);
        let t1 = value_at(b, p, t)->Ok_0.2;
        lemma_holds(b, p, e, lk, lk + lv);
        assert(e.subrange(lk, lk + lv) =~= ve);
        lemma_value_round_trip(v, b, p + lk, t1);
        let t2 = value_at(b, p + lk, t1)->Ok_0.2;
        assert(lk > 0 && lv > 0);
        lemma_holds(b, p, e, lk + lv, e.len() as int);
        assert(e.subrange(lk + lv, e.len() as int) =~= re);
        lemma_entries_round_trip(rest, b, p + lk + lv, t2);
        lemma_dict_cons(es.len(), b, p, t, k, p + lk, t1, v, p + lk + lv, t2);
        assert(seq![(k, v)] + rest =~= es);
    }
}

proof fn lemma_dictionary_payload(n: nat, b: Seq<u8>, p: int, t: Tables)
    requires
        0 <= p < b.len(),
        super::wire::dict_at(n, b, p + 1, t) is Ok,
    ensures
        payload_at(super::wire::DICTIONARY, n, b, p, t) == Ok::<(Model, int, Tables), ErrorModel>(
            (
                Model::Dictionary {
                    is_weak: b[p] == 1,
                    entries: super::wire::dict_at(n, b, p + 1, t)->Ok_0.0,
                },
                super::wire::dict_at(n, b, p + 1, t)->Ok_0.1,
                super::wire::dict_at(n, b, p + 1, t)->Ok_0.2,
            ),
        ),
{
    assert(super::wire::dictionary_at(n, b, p, t) == payload_at(super::wire::DICTIONARY, n, b, p, t));
}

#[verifier::rlimit(100)]
proof fn lemma_dictionary_round_trip(v: Model, b: Seq<u8>, p: int, t: Tables)
    requires
        v is Dictionary,
        v->Dictionary_entries.len() < SIZE_LIMIT,
        entries_round_trip(v->Dictionary_entries),
        0 <= p,
        p + enc(v).len() <= b.len(),
        b.subrange(p, p + enc(v).len()) == enc(v),
    ensures
        value_at(b, p, t) is Ok,
        value_at(b, p, t)->Ok_0.0 == v,
        value_at(b, p, t)->Ok_0.1 == p + enc(v).len(),
    decreases v, 1nat,
{
    let entries = v->Dictionary_entries;
    let weak = v->is_weak;
    let e = enc(v);
    let n = entries.len();
    let sz = size_bytes(n);
    let l = sz.len() as int;
    let de = enc_dict(entries);
    assert(e =~= seq![super::wire::DICTIONARY] + sz + seq![weak as u8] + de);
    assert(b.subrange(p, p + e.len())[0] == b[p]);
    lemma_holds(b, p, e, 1, 1 + l);
    assert(e.subrange(1, 1 + l) =~= sz);
    lemma_size_round_trip(n, b, p + 1);
    let p1 = p + 1 + l;
    assert(b.subrange(p, p + e.len())[1 + l] == b[p1]);
    assert((weak as u8 == 1) == weak);
    lemma_holds(b, p, e, 2 + l, e.len() as int);
    assert(e.subrange(2 + l, e.len() as int) =~= de);
    let t0 = Tables { complexes: t.complexes.push(Model::Null), ..t };
    lemma_entries_round_trip(entries, b, p1 + 1, t0);
    lemma_dictionary_payload(n, b, p1, t0);
    lemma_literal(super::wire::DICTIONARY, n, b, p, p1, t, v, p + e.len());
}

/// The elements of a vector of numbers read back from their bytes.
proof fn lemma_vector_elements(v: Model, b: Seq<u8>, p: int)
    requires
        v is IntVector || v is UintVector || v is DoubleVector,
        0 <= p,
        p + elements_bytes(v).len() <= b.len(),
        b.subrange(p, p + elements_bytes(v).len()) == elements_bytes(v),
    ensures
        elements_bytes(v).len() == (if v is DoubleVector {
            8int
        } else {
            4int
        }) * vector_len(v),
        match v {
            Model::IntVector { entries, .. } => super::wire::i32s_at(b, p, entries.len()) == entries,
            Model::UintVector { entries, .. } => super::wire::u32s_at(b, p, entries.len()) == entries,
            Model::DoubleVector { entries, .. } => super::wire::u64s_at(b, p, entries.len()) == entries,
            _ => true,
        },
{
    match v {
        Model::IntVector { entries, .. } => lemma_i32s_bytes(entries, b, p),
        Model::UintVector { entries, .. } => lemma_u32s_bytes(entries, b, p),
        Model::DoubleVector { entries, .. } => lemma_u64s_bytes(entries, b, p),
        _ => {},
    }
}

/// The marker of a vector of numbers.
pub open spec fn v_marker(v: Model) -> u8 {
    match v {
        Model::IntVector { .. } => super::wire::VECTOR_INT,
        Model::UintVector { .. } => super::wire::VECTOR_UINT,
        _ => super::wire::VECTOR_DOUBLE,
    }
}

proof fn lemma_vector_payload(v: Model, b: Seq<u8>, p: int, t: Tables)
    requires
        v is IntVector || v is UintVector || v is DoubleVector,
        0 <= p < b.len(),
        b[p] == vector_fixed(v) as u8,
        p + 1 + elements_bytes(v).len() <= b.len(),
        elements_bytes(v).len() == (if v is DoubleVector {
            8int
        } else {
            4int
        }) * vector_len(v),
        match v {
            Model::IntVector { entries, .. } => super::wire::i32s_at(b, p + 1, entries.len()) == entries,
            Model::UintVector { entries, .. } => super::wire::u32s_at(b, p + 1, entries.len()) == entries,
            Model::DoubleVector { entries, .. } => super::wire::u64s_at(b, p + 1, entries.len()) == entries,
            _ => true,
        },
    ensures
        payload_at(v_marker(v), vector_len(v), b, p, t) == Ok::<(Model, int, Tables), ErrorModel>(
            (v, p + 1 + elements_bytes(v).len(), t),
        ),
{
    assert((vector_fixed(v) as u8 != 0) == vector_fixed(v));
    assert(super::wire::vector_at(v_marker(v), vector_len(v), b, p, t) == Ok::<(Model, int, Tables), ErrorModel>(
        (v, p + 1 + elements_bytes(v).len(), t),
    ));
}

#[verifier::rlimit(100)]
proof fn lemma_vector_round_trip(v: Model, b: Seq<u8>, p: int, t: Tables)
    requires
        v is IntVector || v is UintVector || v is DoubleVector,
        vector_len(v) < SIZE_LIMIT,
        0 <= p,
        p + enc(v).len() <= b.len(),
        b.subrange(p, p + enc(v).len()) == enc(v),
    ensures
        value_at(b, p, t) is Ok,
        value_at(b, p, t)->Ok_0.0 == v,
        value_at(b, p, t)->Ok_0.1 == p + enc(v).len(),
{
    let e = enc(v);
    let n = vector_len(v);
    let sz = size_bytes(n);
    let l = sz.len() as int;
    let xs = elements_bytes(v);
    assert(e =~= seq![v_marker(v)] + sz + seq![vector_fixed(v) as u8] + xs);
    assert(b.subrange(p, p + e.len())[0] == b[p]);
    lemma_holds(b, p, e, 1, 1 + l);
    assert(e.subrange(1, 1 + l) =~= sz);
    lemma_size_round_trip(n, b, p + 1);
    let p1 = p + 1 + l;
    assert(b.subrange(p, p + e.len())[1 + l] == b[p1]);
    lemma_holds(b, p, e, 2 + l, e.len() as int);
    assert(e.subrange(2 + l, e.len() as int) =~= xs);
    lemma_vector_elements(v, b, p1 + 1);
    let t0 = Tables { complexes: t.complexes.push(Model::Null), ..t };
    lemma_vector_payload(v, b, p1, t0);
    lemma_literal(v_marker(v), n, b, p, p1, t, v, p + e.len());
}

/// An array's payload is its associative part, then its dense part.
pub proof fn lemma_array_payload(n: nat, b: Seq<u8>, p: int, t: Tables)
    requires
        0 <= p,
        pairs_at(b, p, t) is Ok,
        p <= pairs_at(b, p, t)->Ok_0.1 <= b.len(),
    ensures
        payload_at(super::wire::ARRAY, n, b, p, t) == match values_at(
            n,
            b,
            pairs_at(b, p, t)->Ok_0.1,
            pairs_at(b, p, t)->Ok_0.2,
        ) {
            Err(e) => Err(e),
            Ok((dense, p2, t2)) => Ok(
                (
                    Model::Array { assoc_entries: pairs_at(b, p, t)->Ok_0.0, dense_entries: dense },
                    p2,
                    t2,
                ),
            ),
        },
{
    assert(super::wire::array_at(n, b, p, t) == payload_at(super::wire::ARRAY, n, b, p, t));
}

#[verifier::rlimit(100)]
proof fn lemma_array_round_trip(v: Model, b: Seq<u8>, p: int, t: Tables)
    requires
        v is Array,
        v->Array_dense_entries.len() < SIZE_LIMIT,
        members_round_trip(v->Array_assoc_entries),
        values_round_trip(v->Array_dense_entries),
        0 <= p,
        p + enc(v).len() <= b.len(),
        b.subrange(p, p + enc(v).len()) == enc(v),
    ensures
        value_at(b, p, t) is Ok,
        value_at(b, p, t)->Ok_0.0 == v,
        value_at(b, p, t)->Ok_0.1 == p + enc(v).len(),
    decreases v, 1nat,
{
    let assoc = v->Array_assoc_entries;
    let dense = v->Array_dense_entries;
    let e = enc(v);
    let sz = size_bytes(dense.len());
    let pe = enc_pair_list(assoc) + str_bytes(Seq::empty());
    let ve = enc_values(dense);
    assert(e =~= seq![super::wire::ARRAY] + sz + pe + ve);
    assert(b.subrange(p, p + e.len())[0] == b[p]);
    lemma_holds(b, p, e, 1, 1 + (sz.len() as int));
    assert(e.subrange(1, 1 + (sz.len() as int)) =~= sz);
    lemma_size_round_trip(dense.len(), b, p + 1);
    let p1 = p + 1 + (sz.len() as int);
    let t0 = Tables { complexes: t.complexes.push(Model::Null), ..t };
    lemma_holds(b, p, e, 1 + (sz.len() as int), 1 + (sz.len() as int) + (pe.len() as int));
    assert(e.subrange(1 + (sz.len() as int), 1 + (sz.len() as int) + (pe.len() as int)) =~= pe);
    lemma_pairs_round_trip(assoc, b, p1, t0);
    let r1 = pairs_at(b, p1, t0);
    let p2 = p1 + (pe.len() as int);
    lemma_holds(b, p, e, 1 + (sz.len() as int) + (pe.len() as int), e.len() as int);
    assert(e.subrange(1 + (sz.len() as int) + (pe.len() as int), e.len() as int) =~= ve);
    lemma_values_round_trip(dense, b, p2, r1->Ok_0.2);
    lemma_array_payload(dense.len(), b, p1, t0);
    lemma_literal(super::wire::ARRAY, dense.len(), b, p, p1, t, v, p + e.len());
}

/// Decoding the bytes of key-value pairs, closed by the empty key, gives
/// them back.
pub proof fn lemma_pairs_round_trip(es: Seq<(Seq<char>, Model)>, b: Seq<u8>, p: int, t: Tables)
    requires
        members_round_trip(es),
        0 <= p,
        p + enc_pair_list(es).len() + 1 <= b.len(),
        b.subrange(p, p + enc_pair_list(es).len() + 1) == enc_pair_list(es) + str_bytes(Seq::empty()),
    ensures
        pairs_at(b, p, t) is Ok,
        pairs_at(b, p, t)->Ok_0.0 == es,
        pairs_at(b, p, t)->Ok_0.1 == p + enc_pair_list(es).len() + 1,
    decreases es, 0nat,
{
    let e = enc_pair_list(es) + str_bytes(Seq::empty());
    assert(utf8(Seq::<char>::empty()) =~= Seq::<u8>::empty());
    assert(str_bytes(Seq::empty()).len() == 1);
    if es.len() == 0 {
        assert(e =~= str_bytes(Seq::empty()));
        lemma_str_round_trip(Seq::empty(), b, p, t);
    } else {
        let (k, v) = es[0];
        let rest = es.drop_first();
        lemma_members_front(es);
        let ke = str_bytes(k);
        let ve = enc(v);
        let re = enc_pair_list(rest) + str_bytes(Seq::empty());
        assert(e =~= ke + ve + re);
        lemma_holds(b, p, e, 0, ke.len() as int);
        assert(e.subrange(0, ke.len() as int) =~= ke);
        lemma_str_round_trip(k, b, p, t);
        let q = p + (ke.len() as int);
        let t1 = with_string(t, k);
        lemma_holds(b, p, e, ke.len() as int, (ke.len() as int) + (ve.len() as int));
        assert(e.subrange(ke.len() as int, (ke.len() as int) + (ve.len() as int)) =~= ve);
        assert(decreases_to!(es => es[0]));
        lemma_value_round_trip(v, b, q, t1);
        assert((ve.len() as int) > 0);
        let t2 = value_at(b, q, t1)->Ok_0.2;
        let q2 = q + (ve.len() as int);
        lemma_holds(b, p, e, (ke.len() as int) + (ve.len() as int), e.len() as int);
        assert(e.subrange((ke.len() as int) + (ve.len() as int), e.len() as int) =~= re);
        lemma_pairs_round_trip(rest, b, q2, t2);
        assert(seq![(k, v)] + rest =~= es);
    }
}

/// Decoding the bytes of values, one after the other, gives them back.
pub proof fn lemma_values_round_trip(vs: Seq<Model>, b: Seq<u8>, p: int, t: Tables)
    requires
        values_round_trip(vs),
        0 <= p,
        p + enc_values(vs).len() <= b.len(),
        b.subrange(p, p + enc_values(vs).len()) == enc_values(vs),
    ensures
        values_at(vs.len(), b, p, t) is Ok,
        values_at(vs.len(), b, p, t)->Ok_0.0 == vs,
        values_at(vs.len(), b, p, t)->Ok_0.1 == p + enc_values(vs).len(),
    decreases vs, 0nat,
{
    let e = enc_values(vs);
    if vs.len() > 0 {
        let v = vs[0];
        let rest = vs.drop_first();
        lemma_values_front(vs);
        let ve = enc(v);
        let re = enc_values(rest);
        lemma_holds(b, p, e, 0, ve.len() as int);
        assert(e.subrange(0, ve.len() as int) =~= ve);
        lemma_value_round_trip(v, b, p, t);
        assert((ve.len() as int) > 0);
        let t1 = value_at(b, p, t)->Ok_0.2;
        lemma_holds(b, p, e, ve.len() as int, e.len() as int);
        assert(e.subrange(ve.len() as int, e.len() as int) =~= re);
        lemma_values_round_trip(rest, b, p + (ve.len() as int), t1);
        assert(seq![v] + rest =~= vs);
    }
}

} // verus!
