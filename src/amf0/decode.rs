//! The AMF0 decoder.
use super::wire::{
    date_at, literal_at, pairs_at, strict_array_at, payload_at, reference_at, sized_text_at, value_at, values_at,
    Step, AVMPLUS_OBJECT, BOOLEAN, DATE, ECMA_ARRAY, LONG_STRING, MOVIECLIP, NULL, NUMBER, OBJECT,
    OBJECT_END_MARKER, RECORDSET, REFERENCE, STRICT_ARRAY, STRING, TYPED_OBJECT, UNDEFINED,
    UNSUPPORTED, XML_DOCUMENT,
};
use super::{lemma_pairs_view, lemma_values_view, pairs_view, values_view, Model, Value};
use crate::amf3;
use crate::bytes::{get16, read_bytes, read_u16, read_u32, read_u64, read_utf8};
use crate::date::{is_valid_date, millis_from_bits};
use crate::error::{DecodeError, ErrorModel};
use crate::Pair;
use vstd::prelude::*;

verus! {

/// A decoded item, its end position and the table after it, against what
/// the wire format says.
pub open spec fn agrees<T, M>(
    r: Result<(T, usize), DecodeError>,
    s: Step<M>,
    v: spec_fn(T) -> M,
    t: Seq<Model>,
) -> bool {
    match s {
        Ok((m, p, t2)) => r is Ok && v(r->Ok_0.0) == m && r->Ok_0.1 == p && t == t2,
        Err(e) => r is Err && r->Err_0@ == e,
    }
}

/// Prepends `acc` to what a step yields.
pub open spec fn prepend<A>(acc: Seq<A>, s: Step<Seq<A>>) -> Step<Seq<A>> {
    match s {
        Ok((xs, p, t)) => Ok((acc + xs, p, t)),
        Err(e) => Err(e),
    }
}

proof fn lemma_prepend<A>(acc: Seq<A>, x: A, s: Step<Seq<A>>)
    ensures
        prepend(acc, prepend(seq![x], s)) == prepend(acc.push(x), s),
{
    match s {
        Ok((xs, p, t)) => {
            assert(acc + (seq![x] + xs) == acc.push(x) + xs);
        },
        Err(e) => {},
    }
}

/// Text whose byte length stands before it in `w` bytes (2 or 4).
fn read_sized_text(w: usize, buf: &[u8], pos: usize) -> (r: Result<(String, usize), DecodeError>)
    requires
        pos <= buf@.len(),
        w == 2 || w == 4,
    ensures
        match sized_text_at(w as int, buf@, pos as int) {
            Ok((s, p)) => r is Ok && r->Ok_0.0@ == s && r->Ok_0.1 == p && pos + w <= p <= buf@.len(),
            Err(e) => r is Err && r->Err_0@ == e,
        },
{
    if buf.len() - pos < w {
        return Err(DecodeError::UnexpectedEof);
    }
    let len = if w == 2 {
        read_u16(buf, pos) as usize
    } else {
        read_u32(buf, pos) as usize
    };
    let start = pos + w;
    if len > buf.len() - start {
        return Err(DecodeError::UnexpectedEof);
    }
    match read_utf8(buf, start, len) {
        None => Err(DecodeError::String),
        Some(s) => Ok((s, start + len)),
    }
}

fn decode_reference(buf: &[u8], pos: usize, t: &Vec<Value>) -> (r: Result<(Value, usize), DecodeError>)
    requires
        pos <= buf@.len(),
    ensures
        agrees(r, reference_at(buf@, pos as int, values_view(t@)), |v: Value| v@, values_view(t@)),
        r is Ok ==> pos < r->Ok_0.1 <= buf@.len(),
{
    proof {
        lemma_values_view(t@);
    }
    if buf.len() - pos < 2 {
        return Err(DecodeError::UnexpectedEof);
    }
    let index = read_u16(buf, pos) as usize;
    if index >= t.len() {
        Err(DecodeError::OutOfRangeReference { index })
    } else if matches!(t[index], Value::Null) {
        Err(DecodeError::CircularReference { index })
    } else {
        Ok((t[index].clone(), pos + 2))
    }
}

fn decode_date(buf: &[u8], pos: usize) -> (r: Result<(Value, usize), DecodeError>)
    requires
        pos <= buf@.len(),
    ensures
        match date_at(buf@, pos as int, Seq::empty()) {
            Ok((v, p, _)) => r is Ok && r->Ok_0.0@ == v && r->Ok_0.1 == p && pos < p <= buf@.len(),
            Err(e) => r is Err && r->Err_0@ == e,
        },
{
    if buf.len() - pos < 10 {
        return Err(DecodeError::UnexpectedEof);
    }
    let millis = read_u64(buf, pos);
    let time_zone = read_u16(buf, pos + 8);
    if time_zone != 0 {
        Err(DecodeError::NonZeroTimeZone { offset: #[verifier::truncate] (time_zone as i16) })
    } else if !(millis >> 63 == 0 && (millis >> 52) & 0x7FF != 0x7FF) {
        Err(DecodeError::InvalidDate { millis })
    } else {
        Ok((Value::Date { unix_time: millis_from_bits(millis) }, pos + 10))
    }
}

/// The value at `pos`.
fn decode_value(buf: &[u8], pos: usize, t: &mut Vec<Value>) -> (r: Result<(Value, usize), DecodeError>)
    requires
        pos <= buf@.len(),
    ensures
        agrees(r, value_at(buf@, pos as int, values_view(old(t)@)), |v: Value| v@, values_view(final(t)@)),
        r is Ok ==> pos < r->Ok_0.1 <= buf@.len(),
        r is Ok ==> final(t)@.len() >= old(t)@.len(),
    decreases buf@.len() - pos, 1int,
{
    if pos >= buf.len() {
        return Err(DecodeError::UnexpectedEof);
    }
    let marker = buf[pos];
    if marker == NUMBER {
        if buf.len() - pos < 9 {
            Err(DecodeError::UnexpectedEof)
        } else {
            Ok((Value::Number(read_u64(buf, pos + 1)), pos + 9))
        }
    } else if marker == BOOLEAN {
        if buf.len() - pos < 2 {
            Err(DecodeError::UnexpectedEof)
        } else {
            Ok((Value::Boolean(buf[pos + 1] != 0), pos + 2))
        }
    } else if marker == STRING || marker == LONG_STRING || marker == XML_DOCUMENT {
        let w: usize = if marker == STRING {
            2
        } else {
            4
        };
        match read_sized_text(w, buf, pos + 1) {
            Err(e) => Err(e),
            Ok((s, p)) => if marker == XML_DOCUMENT {
                Ok((Value::XmlDocument(s), p))
            } else {
                Ok((Value::String(s), p))
            },
        }
    } else if marker == OBJECT || marker == ECMA_ARRAY || marker == TYPED_OBJECT {
        decode_complex_type(marker, buf, pos + 1, t)
    } else if marker == STRICT_ARRAY {
        decode_strict_array(buf, pos + 1, t)
    } else if marker == MOVIECLIP || marker == UNSUPPORTED || marker == RECORDSET {
        Err(DecodeError::Unsupported { marker })
    } else if marker == NULL {
        Ok((Value::Null, pos + 1))
    } else if marker == UNDEFINED {
        Ok((Value::Undefined, pos + 1))
    } else if marker == REFERENCE {
        decode_reference(buf, pos + 1, t)
    } else if marker == OBJECT_END_MARKER {
        Err(DecodeError::UnexpectedObjectEnd)
    } else if marker == DATE {
        decode_date(buf, pos + 1)
    } else if marker == AVMPLUS_OBJECT {
        decode_avmplus(buf, pos + 1)
    } else {
        Err(DecodeError::Unknown { marker })
    }
}

/// A strict array: a count, then that many values, with no slot in the
/// table of complex values.
fn decode_strict_array(buf: &[u8], pos: usize, t: &mut Vec<Value>) -> (r: Result<
    (Value, usize),
    DecodeError,
>)
    requires
        pos <= buf@.len(),
    ensures
        agrees(r, strict_array_at(buf@, pos as int, values_view(old(t)@)), |v: Value| v@, values_view(final(t)@)),
        r is Ok ==> pos < r->Ok_0.1 <= buf@.len(),
        r is Ok ==> final(t)@.len() >= old(t)@.len(),
    decreases buf@.len() - pos, 0int,
{
    if buf.len() - pos < 4 {
        return Err(DecodeError::UnexpectedEof);
    }
    let count = read_u32(buf, pos) as usize;
    match decode_values(count, buf, pos + 4, t) {
        Err(e) => Err(e),
        Ok((entries, p)) => Ok((Value::Array { entries }, p)),
    }
}

/// An embedded AMF3 value, decoded with reference tables of its own.
fn decode_avmplus(buf: &[u8], pos: usize) -> (r: Result<(Value, usize), DecodeError>)
    requires
        pos <= buf@.len(),
    ensures
        match amf3::wire::value_at(buf@, pos as int, amf3::wire::Tables::empty()) {
            Ok((v, p, _)) => r is Ok && r->Ok_0.0@ == Model::AvmPlus(v) && r->Ok_0.1 == p && pos < p <= buf@.len(),
            Err(e) => r is Err && r->Err_0@ == e,
        },
{
    let mut st = amf3::decode::State::new();
    match amf3::decode::decode_at(buf, pos, &mut st) {
        Err(e) => Err(e),
        Ok((v, p)) => Ok((Value::AvmPlus(v), p)),
    }
}

proof fn lemma_literal_err(m: u8, b: Seq<u8>, p: int, t: Seq<Model>, e: ErrorModel)
    requires
        0 <= p <= b.len(),
        payload_at(m, b, p, t.push(Model::Null)) == Err::<(Model, int, Seq<Model>), ErrorModel>(e),
    ensures
        literal_at(m, b, p, t) == Err::<(Model, int, Seq<Model>), ErrorModel>(e),
{
}

proof fn lemma_literal_ok(m: u8, b: Seq<u8>, p: int, t: Seq<Model>, v: Model, p2: int, t2: Seq<Model>)
    requires
        0 <= p <= b.len(),
        payload_at(m, b, p, t.push(Model::Null)) == Ok::<(Model, int, Seq<Model>), ErrorModel>((v, p2, t2)),
    ensures
        literal_at(m, b, p, t) == Ok::<(Model, int, Seq<Model>), ErrorModel>((v, p2, t2.update(t.len() as int, v))),
{
}

/// Takes the next slot of the table, holding null; returns its index.
fn push_placeholder(t: &mut Vec<Value>) -> (r: usize)
    ensures
        r == old(t)@.len(),
        r == values_view(old(t)@).len(),
        values_view(final(t)@) == values_view(old(t)@).push(Model::Null),
        final(t)@.len() == old(t)@.len() + 1,
{
    proof {
        lemma_values_view(t@);
    }
    let index = t.len();
    let ghost t0 = t@;
    t.push(Value::Null);
    assert(t@.drop_last() == t0);
    assert(t@.last()@ == Model::Null);
    index
}

/// Puts a value in a slot of the table.
fn set_slot(t: &mut Vec<Value>, i: usize, v: Value)
    requires
        i < old(t)@.len(),
    ensures
        values_view(final(t)@) == values_view(old(t)@).update(i as int, v@),
        final(t)@.len() == old(t)@.len(),
{
    proof {
        lemma_values_view(t@);
    }
    let ghost t2 = t@;
    t.set(i, v);
    proof {
        lemma_values_view(t@);
        assert(values_view(t@) =~= values_view(t2).update(i as int, v@));
    }
}

/// An object or array: its slot in the table is taken, holding null, while
/// its payload is read, so that a reference to it from inside is found
/// circular.
fn decode_complex_type(marker: u8, buf: &[u8], pos: usize, t: &mut Vec<Value>) -> (r: Result<
    (Value, usize),
    DecodeError,
>)
    requires
        pos <= buf@.len(),
    ensures
        agrees(r, literal_at(marker, buf@, pos as int, values_view(old(t)@)), |v: Value| v@, values_view(final(t)@)),
        r is Ok ==> pos <= r->Ok_0.1 <= buf@.len(),
        r is Ok ==> final(t)@.len() >= old(t)@.len(),
    decreases buf@.len() - pos, 4int,
{
    let ghost t_old = values_view(t@);
    let index = push_placeholder(t);
    let ghost t0 = values_view(t@);
    assert(t0 == t_old.push(Model::Null));
    let r = decode_payload(marker, buf, pos, t);
    match r {
        Err(e) => {
            assert(payload_at(marker, buf@, pos as int, t0) == Err::<(Model, int, Seq<Model>), ErrorModel>(e@));
            proof {
                lemma_literal_err(marker, buf@, pos as int, t_old, e@);
            }
            Err(e)
        },
        Ok((v, p)) => {
            let ghost t2 = values_view(t@);
            assert(payload_at(marker, buf@, pos as int, t0) == Ok::<(Model, int, Seq<Model>), ErrorModel>((v@, p as int, t2)));
            let c = v.clone();
            set_slot(t, index, c);
            assert(values_view(t@) == t2.update(index as int, v@));
            proof {
                lemma_literal_ok(marker, buf@, pos as int, t_old, v@, p as int, t2);
            }
            Ok((v, p))
        },
    }
}

fn decode_payload(marker: u8, buf: &[u8], pos: usize, t: &mut Vec<Value>) -> (r: Result<
    (Value, usize),
    DecodeError,
>)
    requires
        pos <= buf@.len(),
    ensures
        agrees(r, payload_at(marker, buf@, pos as int, values_view(old(t)@)), |v: Value| v@, values_view(final(t)@)),
        r is Ok ==> pos <= r->Ok_0.1 <= buf@.len(),
        r is Ok ==> final(t)@.len() >= old(t)@.len(),
    decreases buf@.len() - pos, 3int,
{
    if marker == OBJECT {
        match decode_pairs(buf, pos, t) {
            Err(e) => Err(e),
            Ok((entries, p)) => Ok((Value::Object { class_name: None, entries }, p)),
        }
    } else if marker == ECMA_ARRAY {
        if buf.len() - pos < 4 {
            return Err(DecodeError::UnexpectedEof);
        }
        match decode_pairs(buf, pos + 4, t) {
            Err(e) => Err(e),
            Ok((entries, p)) => Ok((Value::EcmaArray { entries }, p)),
        }
    } else {
        match read_sized_text(2, buf, pos) {
            Err(e) => Err(e),
            Ok((name, p1)) => match decode_pairs(buf, p1, t) {
                Err(e) => Err(e),
                Ok((entries, p)) => Ok((Value::Object { class_name: Some(name), entries }, p)),
            },
        }
    }
}

/// `n` values in a row.
fn decode_values(n: usize, buf: &[u8], pos: usize, t: &mut Vec<Value>) -> (r: Result<
    (Vec<Value>, usize),
    DecodeError,
>)
    requires
        pos <= buf@.len(),
    ensures
        agrees(r, values_at(n as nat, buf@, pos as int, values_view(old(t)@)), |v: Vec<Value>| values_view(v@), values_view(final(t)@)),
        r is Ok ==> pos <= r->Ok_0.1 <= buf@.len(),
        r is Ok ==> final(t)@.len() >= old(t)@.len(),
    decreases buf@.len() - pos, 2int,
{
    let mut vs: Vec<Value> = Vec::new();
    let mut p = pos;
    let mut i: usize = 0;
    while i < n
        invariant
            i <= n,
            pos <= p <= buf@.len(),
            t@.len() >= old(t)@.len(),
            values_at(n as nat, buf@, pos as int, values_view(old(t)@)) == prepend(
                values_view(vs@),
                values_at((n - i) as nat, buf@, p as int, values_view(t@)),
            ),
        decreases n - i,
    {
        let ghost acc = vs@;
        let ghost before = values_view(t@);
        let ghost len_before = t@.len();
        match decode_value(buf, p, t) {
            Err(e) => {
                assert(values_at((n - i) as nat, buf@, p as int, before) == Err::<(Seq<Model>, int, Seq<Model>), ErrorModel>(e@));
                return Err(e);
            },
            Ok((v, p2)) => {
                proof {
                    lemma_prepend(values_view(acc), v@, values_at((n - i - 1) as nat, buf@, p2 as int, values_view(t@)));
                    lemma_values_view(t@);
                }
                vs.push(v);
                assert(vs@.drop_last() == acc);
                p = p2;
                i += 1;
            },
        }
    }
    Ok((vs, p))
}

/// Key-value pairs up to the empty key followed by the object-end marker.
fn decode_pairs(buf: &[u8], pos: usize, t: &mut Vec<Value>) -> (r: Result<
    (Vec<Pair<String, Value>>, usize),
    DecodeError,
>)
    requires
        pos <= buf@.len(),
    ensures
        agrees(r, pairs_at(buf@, pos as int, values_view(old(t)@)), |v: Vec<Pair<String, Value>>| pairs_view(v@), values_view(final(t)@)),
        r is Ok ==> pos <= r->Ok_0.1 <= buf@.len(),
        r is Ok ==> final(t)@.len() >= old(t)@.len(),
    decreases buf@.len() - pos, 2int,
{
    let mut ps: Vec<Pair<String, Value>> = Vec::new();
    let mut p = pos;
    loop
        invariant
            pos <= p <= buf@.len(),
            t@.len() >= old(t)@.len(),
            pairs_at(buf@, pos as int, values_view(old(t)@)) == prepend(pairs_view(ps@), pairs_at(buf@, p as int, values_view(t@))),
        decreases buf@.len() - p,
    {
        let ghost acc = ps@;
        let ghost before = values_view(t@);
        match read_sized_text(2, buf, p) {
            Err(e) => {
                return Err(e);
            },
            Ok((key, p1)) => {
                if key.as_str().is_empty() && p1 < buf.len() && buf[p1] == OBJECT_END_MARKER {
                    assert(pairs_view(ps@) + Seq::empty() == pairs_view(ps@));
                    return Ok((ps, p1 + 1));
                }
                match decode_value(buf, p1, t) {
                    Err(e) => {
                        return Err(e);
                    },
                    Ok((v, p2)) => {
                        proof {
                            lemma_prepend(pairs_view(acc), (key@, v@), pairs_at(buf@, p2 as int, values_view(t@)));
                        }
                        ps.push(Pair { key, value: v });
                        assert(ps@.drop_last() == acc);
                        p = p2;
                    },
                }
            },
        }
    }
}

/// The value at the start of `bytes`, decoded with an empty table.
pub fn decode_bytes(bytes: &[u8]) -> (r: Result<(Value, usize), DecodeError>)
    ensures
        match value_at(bytes@, 0, Seq::empty()) {
            Ok((v, p, _)) => r is Ok && r->Ok_0.0@ == v && r->Ok_0.1 == p,
            Err(e) => r is Err && r->Err_0@ == e,
        },
{
    let mut t: Vec<Value> = Vec::new();
    assert(values_view(t@) == Seq::<Model>::empty());
    decode_value(bytes, 0, &mut t)
}

/// AMF0 decoder: reads values one after the other from a byte vector. The
/// table of complex values starts empty at each value, so a reference never
/// reaches into an earlier value.
#[derive(Debug)]
pub struct Decoder {
    inner: Vec<u8>,
    pos: usize,
}

impl Decoder {
    /// The bytes being decoded.
    pub closed spec fn input(&self) -> Seq<u8> {
        self.inner@
    }

    /// The position of the next value.
    pub closed spec fn position(&self) -> int {
        self.pos as int
    }

    #[verifier::type_invariant]
    spec fn inv(&self) -> bool {
        self.pos <= self.inner@.len()
    }

    /// Makes a new instance that decodes `inner` from its start.
    pub fn new(inner: Vec<u8>) -> (r: Self)
        ensures
            r.input() == inner@,
            r.position() == 0,
    {
        Decoder { inner, pos: 0 }
    }

    /// Unwraps this `Decoder`, returning the bytes not yet decoded.
    pub fn into_inner(self) -> (r: Vec<u8>)
        ensures
            r@ == self.input().subrange(self.position(), self.input().len() as int),
    {
        proof {
            use_type_invariant(&self);
        }
        read_bytes(self.inner.as_slice(), self.pos, self.inner.len() - self.pos)
    }

    /// Decodes the next AMF0 value, with a table of complex values that
    /// starts empty; on success the position moves past the value, on an
    /// error it stays.
    pub fn decode(&mut self) -> (r: Result<Value, DecodeError>)
        ensures
            final(self).input() == old(self).input(),
            match value_at(old(self).input(), old(self).position(), Seq::empty()) {
                Ok((v, p, _)) => r is Ok && r->Ok_0@ == v && final(self).position() == p,
                Err(e) => r is Err && r->Err_0@ == e && final(self).position() == old(self).position(),
            },
    {
        proof {
            use_type_invariant(&*self);
        }
        let mut t: Vec<Value> = Vec::new();
        assert(values_view(t@) == Seq::<Model>::empty());
        match decode_value(self.inner.as_slice(), self.pos, &mut t) {
            Err(e) => Err(e),
            Ok((v, p)) => {
                self.pos = p;
                Ok(v)
            },
        }
    }

    /// Reference indices are local to each message. The table of complex
    /// values already starts empty at each `decode`, so this leaves the
    /// decoder as it is.
    pub fn clear_reference_table(&mut self)
        ensures
            final(self).input() == old(self).input(),
            final(self).position() == old(self).position(),
    {
    }
}

} // verus!
