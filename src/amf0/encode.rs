//! The AMF0 encoder.
use super::wire::{
    enc, enc_pair_list, enc_pairs, enc_values, encodable, long_str_bytes, member_encodable,
    pairs_encodable, short_str_bytes, values_encodable, BOOLEAN, DATE, ECMA_ARRAY, LONG_STRING,
    NULL, NUMBER, OBJECT, OBJECT_END_MARKER, STRICT_ARRAY, STRING, TYPED_OBJECT, UNDEFINED,
    XML_DOCUMENT, AVMPLUS_OBJECT,
};
use super::{lemma_pairs_view, lemma_values_view, pairs_view, values_view, Model, Value};
use crate::amf3;
use crate::bytes::{put_str, put_u16, put_u32, put_u64, utf8, utf8_len};
use crate::date::bits_from_millis;
use crate::error::EncodeError;
use crate::Pair;
use vstd::prelude::*;

verus! {

proof fn lemma_values_encodable(s: Seq<Model>)
    ensures
        values_encodable(s) <==> forall|i: int| 0 <= i < s.len() ==> #[trigger] encodable(s[i]),
    decreases s.len(),
{
    if s.len() > 0 {
        lemma_values_encodable(s.drop_last());
        assert(values_encodable(s) == (values_encodable(s.drop_last()) && encodable(s.last())));
        assert forall|i: int| 0 <= i < s.len() - 1 implies s.drop_last()[i] == s[i] by {}
    }
}

proof fn lemma_pairs_encodable(s: Seq<(Seq<char>, Model)>)
    ensures
        pairs_encodable(s) <==> forall|i: int| 0 <= i < s.len() ==> #[trigger] member_encodable(s[i]),
    decreases s.len(),
{
    if s.len() > 0 {
        lemma_pairs_encodable(s.drop_last());
        assert(pairs_encodable(s) == (pairs_encodable(s.drop_last()) && member_encodable(s.last())));
        assert(s.last() == s[s.len() - 1]);
        assert forall|i: int| 0 <= i < s.len() - 1 implies member_encodable(s.drop_last()[i])
            == member_encodable(s[i]) by {}
    }
}

/// Whether the encoder accepts a value.
pub fn is_encodable(v: &Value) -> (r: bool)
    ensures
        r == encodable(v@),
    decreases v,
{
    match v {
        Value::String(s) | Value::XmlDocument(s) => utf8_len(s.as_str()) <= 0xFFFF_FFFF,
        Value::Object { class_name, entries } => {
            proof {
                lemma_pairs_view(entries@);
            }
            entries.len() <= 0xFFFF_FFFF && match class_name {
                Some(name) => utf8_len(name.as_str()) <= 0xFFFF,
                None => true,
            } && pairs_ok(entries)
        },
        Value::EcmaArray { entries } => {
            proof {
                lemma_pairs_view(entries@);
            }
            entries.len() <= 0xFFFF_FFFF && pairs_ok(entries)
        },
        Value::Array { entries } => {
            proof {
                lemma_values_view(entries@);
            }
            entries.len() <= 0xFFFF_FFFF && values_ok(entries)
        },
        Value::AvmPlus(x) => amf3::encode::is_encodable(x),
        _ => true,
    }
}

fn values_ok(vs: &Vec<Value>) -> (r: bool)
    ensures
        r == values_encodable(values_view(vs@)),
    decreases vs,
{
    proof {
        lemma_values_view(vs@);
        lemma_values_encodable(values_view(vs@));
    }
    let mut i: usize = 0;
    while i < vs.len()
        invariant
            i <= vs@.len(),
            values_view(vs@).len() == vs@.len(),
            forall|j: int| 0 <= j < vs@.len() ==> #[trigger] values_view(vs@)[j] == vs@[j]@,
            forall|j: int| 0 <= j < i ==> encodable(#[trigger] values_view(vs@)[j]),
        decreases vs@.len() - i,
    {
        assert(decreases_to!(vs => vs@[i as int]));
        if !is_encodable(&vs[i]) {
            proof {
                lemma_values_encodable(values_view(vs@));
            }
            assert(!encodable(values_view(vs@)[i as int]));
            return false;
        }
        assert(encodable(values_view(vs@)[i as int]));
        i += 1;
    }
    true
}

fn pairs_ok(ps: &Vec<Pair<String, Value>>) -> (r: bool)
    ensures
        r == pairs_encodable(pairs_view(ps@)),
    decreases ps,
{
    proof {
        lemma_pairs_view(ps@);
        lemma_pairs_encodable(pairs_view(ps@));
    }
    let mut i: usize = 0;
    while i < ps.len()
        invariant
            i <= ps@.len(),
            pairs_view(ps@).len() == ps@.len(),
            forall|j: int| 0 <= j < ps@.len() ==> #[trigger] pairs_view(ps@)[j] == (ps@[j].key@, ps@[j].value@),
            forall|j: int| 0 <= j < i ==> #[trigger] member_encodable(pairs_view(ps@)[j]),
        decreases ps@.len() - i,
    {
        assert(decreases_to!(ps => ps@[i as int]));
        if utf8_len(ps[i].key.as_str()) > 0xFFFF || !is_encodable(&ps[i].value) {
            proof {
                lemma_pairs_encodable(pairs_view(ps@));
            }
            assert(!member_encodable(pairs_view(ps@)[i as int]));
            return false;
        }
        assert(member_encodable(pairs_view(ps@)[i as int]));
        i += 1;
    }
    true
}

/// AMF0 encoder: appends the encoding of values to a byte vector.
#[derive(Debug)]
pub struct Encoder {
    inner: Vec<u8>,
}

impl View for Encoder {
    type V = Seq<u8>;

    closed spec fn view(&self) -> Seq<u8> {
        self.inner@
    }
}

impl Encoder {
    /// Makes a new instance that appends to `inner`.
    pub fn new(inner: Vec<u8>) -> (r: Self)
        ensures
            r@ == inner@,
    {
        Encoder { inner }
    }

    /// Unwraps this `Encoder`, returning the bytes written so far.
    pub fn into_inner(self) -> (r: Vec<u8>)
        ensures
            r@ == self@,
    {
        self.inner
    }

    /// Encodes an AMF0 value; fails, writing nothing, where the value is not
    /// encodable.
    pub fn encode(&mut self, value: &Value) -> (r: Result<(), EncodeError>)
        ensures
            r is Ok <==> encodable(value@),
            r is Ok ==> final(self)@ == old(self)@ + enc(value@),
            r is Err ==> final(self)@ == old(self)@,
    {
        if !is_encodable(value) {
            return Err(EncodeError::OutOfRange);
        }
        self.encode_value(value);
        Ok(())
    }

    fn encode_value(&mut self, value: &Value)
        requires
            encodable(value@),
        ensures
            final(self).inner@ == old(self).inner@ + enc(value@),
        decreases value, 2nat,
    {
        match value {
            Value::Number(x) => self.encode_number(*x),
            Value::Boolean(x) => self.encode_boolean(*x),
            Value::String(x) => self.encode_string(x.as_str()),
            Value::Object { .. } => self.encode_object(value),
            Value::Null => self.encode_null(),
            Value::Undefined => self.encode_undefined(),
            Value::EcmaArray { .. } => self.encode_ecma_array(value),
            Value::Array { .. } => self.encode_strict_array(value),
            Value::Date { unix_time } => self.encode_date(*unix_time),
            Value::XmlDocument(x) => self.encode_xml_document(x.as_str()),
            Value::AvmPlus(x) => self.encode_avmplus(x),
        }
    }

    fn encode_number(&mut self, n: u64)
        ensures
            final(self).inner@ == old(self).inner@ + enc(Model::Number(n)),
    {
        self.inner.push(NUMBER);
        put_u64(&mut self.inner, n);
    }

    fn encode_boolean(&mut self, b: bool)
        ensures
            final(self).inner@ == old(self).inner@ + enc(Model::Boolean(b)),
    {
        self.inner.push(BOOLEAN);
        self.inner.push(b as u8);
    }

    fn encode_string(&mut self, s: &str)
        requires
            utf8(s@).len() <= u32::MAX,
        ensures
            final(self).inner@ == old(self).inner@ + enc(Model::String(s@)),
    {
        if utf8_len(s) <= 0xFFFF {
            self.inner.push(STRING);
            self.write_str_u16(s);
        } else {
            self.inner.push(LONG_STRING);
            self.write_str_u32(s);
        }
    }

    fn encode_object(&mut self, value: &Value)
        requires
            value is Object,
            encodable(value@),
        ensures
            final(self).inner@ == old(self).inner@ + enc(value@),
        decreases value, 1nat,
    {
        match value {
            Value::Object { class_name, entries } => {
                match class_name {
                    Some(name) => {
                        self.inner.push(TYPED_OBJECT);
                        self.write_str_u16(name.as_str());
                    },
                    None => {
                        self.inner.push(OBJECT);
                    },
                }
                self.encode_pairs(entries);
            },
            _ => {},
        }
    }

    fn encode_null(&mut self)
        ensures
            final(self).inner@ == old(self).inner@ + enc(Model::Null),
    {
        self.inner.push(NULL);
    }

    fn encode_undefined(&mut self)
        ensures
            final(self).inner@ == old(self).inner@ + enc(Model::Undefined),
    {
        self.inner.push(UNDEFINED);
    }

    fn encode_ecma_array(&mut self, value: &Value)
        requires
            value is EcmaArray,
            encodable(value@),
        ensures
            final(self).inner@ == old(self).inner@ + enc(value@),
        decreases value, 1nat,
    {
        match value {
            Value::EcmaArray { entries } => {
                proof {
                    lemma_pairs_view(entries@);
                }
                self.inner.push(ECMA_ARRAY);
                put_u32(&mut self.inner, entries.len() as u32);
                self.encode_pairs(entries);
            },
            _ => {},
        }
    }

    fn encode_strict_array(&mut self, value: &Value)
        requires
            value is Array,
            encodable(value@),
        ensures
            final(self).inner@ == old(self).inner@ + enc(value@),
        decreases value, 1nat,
    {
        match value {
            Value::Array { entries } => {
                proof {
                    lemma_values_view(entries@);
                }
                self.inner.push(STRICT_ARRAY);
                put_u32(&mut self.inner, entries.len() as u32);
                self.encode_values(entries);
            },
            _ => {},
        }
    }

    fn encode_values(&mut self, entries: &Vec<Value>)
        requires
            values_encodable(values_view(entries@)),
        ensures
            final(self).inner@ == old(self).inner@ + enc_values(values_view(entries@)),
        decreases entries, 0nat,
    {
        proof {
            lemma_values_view(entries@);
            lemma_values_encodable(values_view(entries@));
        }
        let ghost vv = values_view(entries@);
        let ghost start = self.inner@;
        let mut i: usize = 0;
        while i < entries.len()
            invariant
                i <= entries@.len(),
                vv == values_view(entries@),
                vv.len() == entries@.len(),
                forall|j: int| 0 <= j < entries@.len() ==> #[trigger] vv[j] == entries@[j]@,
                forall|j: int| 0 <= j < vv.len() ==> encodable(#[trigger] vv[j]),
                self.inner@ == start + enc_values(vv.subrange(0, i as int)),
            decreases entries@.len() - i,
        {
            assert(decreases_to!(entries => entries@[i as int]));
            assert(vv[i as int] == entries@[i as int]@);
            self.encode_value(&entries[i]);
            proof {
                assert(vv.subrange(0, i + 1).drop_last() == vv.subrange(0, i as int));
            }
            i += 1;
        }
        assert(vv.subrange(0, i as int) == vv);
    }

    fn encode_date(&mut self, unix_time: u64)
        ensures
            final(self).inner@ == old(self).inner@ + enc(Model::Date { unix_time }),
    {
        self.inner.push(DATE);
        put_u64(&mut self.inner, bits_from_millis(unix_time));
        put_u16(&mut self.inner, 0);
    }

    fn encode_xml_document(&mut self, xml: &str)
        requires
            utf8(xml@).len() <= u32::MAX,
        ensures
            final(self).inner@ == old(self).inner@ + enc(Model::XmlDocument(xml@)),
    {
        self.inner.push(XML_DOCUMENT);
        self.write_str_u32(xml);
    }

    fn encode_avmplus(&mut self, value: &amf3::Value)
        requires
            amf3::wire::encodable(value@),
        ensures
            final(self).inner@ == old(self).inner@ + enc(Model::AvmPlus(value@)),
    {
        self.inner.push(AVMPLUS_OBJECT);
        amf3::encode::encode_into(&mut self.inner, value);
    }

    fn write_str_u32(&mut self, s: &str)
        requires
            utf8(s@).len() <= u32::MAX,
        ensures
            final(self).inner@ == old(self).inner@ + long_str_bytes(s@),
    {
        put_u32(&mut self.inner, utf8_len(s) as u32);
        put_str(&mut self.inner, s);
    }

    fn write_str_u16(&mut self, s: &str)
        requires
            utf8(s@).len() <= 0xFFFF,
        ensures
            final(self).inner@ == old(self).inner@ + short_str_bytes(s@),
    {
        put_u16(&mut self.inner, utf8_len(s) as u16);
        put_str(&mut self.inner, s);
    }

    fn encode_pairs(&mut self, entries: &Vec<Pair<String, Value>>)
        requires
            pairs_encodable(pairs_view(entries@)),
        ensures
            final(self).inner@ == old(self).inner@ + enc_pairs(pairs_view(entries@)),
        decreases entries, 0nat,
    {
        proof {
            lemma_pairs_view(entries@);
            lemma_pairs_encodable(pairs_view(entries@));
        }
        let ghost pv = pairs_view(entries@);
        let ghost start = self.inner@;
        let mut i: usize = 0;
        while i < entries.len()
            invariant
                i <= entries@.len(),
                pv == pairs_view(entries@),
                pv.len() == entries@.len(),
                forall|j: int| 0 <= j < entries@.len() ==> #[trigger] pv[j] == (entries@[j].key@, entries@[j].value@),
                forall|j: int| 0 <= j < pv.len() ==> #[trigger] member_encodable(pv[j]),
                self.inner@ == start + enc_pair_list(pv.subrange(0, i as int)),
            decreases entries@.len() - i,
        {
            assert(decreases_to!(entries => entries@[i as int]));
            assert(pv[i as int] == (entries@[i as int].key@, entries@[i as int].value@));
            assert(member_encodable(pv[i as int]));
            self.write_str_u16(entries[i].key.as_str());
            self.encode_value(&entries[i].value);
            proof {
                assert(pv.subrange(0, i + 1).drop_last() == pv.subrange(0, i as int));
            }
            i += 1;
        }
        assert(pv.subrange(0, i as int) == pv);
        self.inner.push(0);
        self.inner.push(0);
        self.inner.push(OBJECT_END_MARKER);
    }
}

/// Appends the encoding of an encodable value to `out`.
pub fn encode_into(out: &mut Vec<u8>, value: &Value)
    requires
        encodable(value@),
    ensures
        final(out)@ == old(out)@ + enc(value@),
{
    let mut buf: Vec<u8> = Vec::new();
    std::mem::swap(&mut buf, out);
    let mut encoder = Encoder { inner: buf };
    encoder.encode_value(value);
    let mut written = encoder.inner;
    std::mem::swap(&mut written, out);
}

} // verus!
