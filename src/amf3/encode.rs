//! The AMF3 encoder.
use super::wire::{
    dict_encodable, enc, enc_dict, enc_members, enc_pair_list, enc_pairs, enc_values, encodable,
    i32s_bytes, names_bytes, class_name_bytes, member_encodable, entry_encodable, opt_name_encodable, pairs_encodable, size_bytes,
    str_bytes, trait_header, u29_bytes, u32s_bytes, u64s_bytes, values_encodable, ARRAY, BYTE_ARRAY,
    DATE, DICTIONARY, DOUBLE, FALSE, INTEGER, NULL, OBJECT, SIZE_LIMIT, STRING, TRUE, U29_LIMIT,
    UNDEFINED, VECTOR_DOUBLE, VECTOR_INT, VECTOR_OBJECT, VECTOR_UINT, XML, XML_DOC,
};
use super::{dict_view, lemma_dict_view, lemma_pairs_view, lemma_values_view, opt_str_view, pairs_view, values_view, Model, Value};
use crate::bytes::{put_str, put_u32, put_u64, utf8, utf8_len};
use crate::date::bits_from_millis;
use crate::error::EncodeError;
use crate::Pair;
use vstd::prelude::*;

verus! {

proof fn lemma_values_encodable(s: Seq<Model>)
    ensures
        values_encodable(s) <==> forall|i: int| 0 <= i < s.len() ==> #[trigger] encodable(s[i]),
    decreases s.len(),
{
    if s.len() > 0 {
        lemma_values_encodable(s.drop_last());
        assert(values_encodable(s) == (values_encodable(s.drop_last()) && encodable(s.last())));
        assert forall|i: int| 0 <= i < s.len() - 1 implies s.drop_last()[i] == s[i] by {}
    }
}

proof fn lemma_pairs_encodable(s: Seq<(Seq<char>, Model)>)
    ensures
        pairs_encodable(s) <==> forall|i: int| 0 <= i < s.len() ==> #[trigger] member_encodable(s[i]),
    decreases s.len(),
{
    if s.len() > 0 {
        lemma_pairs_encodable(s.drop_last());
        assert(pairs_encodable(s) == (pairs_encodable(s.drop_last()) && member_encodable(s.last())));
        assert(s.last() == s[s.len() - 1]);
        assert forall|i: int| 0 <= i < s.len() - 1 implies member_encodable(s.drop_last()[i])
            == member_encodable(s[i]) by {}
    }
}

proof fn lemma_dict_encodable(s: Seq<(Model, Model)>)
    ensures
        dict_encodable(s) <==> forall|i: int| 0 <= i < s.len() ==> #[trigger] entry_encodable(s[i]),
    decreases s.len(),
{
    if s.len() > 0 {
        lemma_dict_encodable(s.drop_last());
        assert(dict_encodable(s) == (dict_encodable(s.drop_last()) && entry_encodable(s.last())));
        assert(s.last() == s[s.len() - 1]);
        assert forall|i: int| 0 <= i < s.len() - 1 implies entry_encodable(s.drop_last()[i])
            == entry_encodable(s[i]) by {}
    }
}

/// Whether the encoder accepts a value.
pub fn is_encodable(v: &Value) -> (r: bool)
    ensures
        r == encodable(v@),
    decreases v,
{
    match v {
        Value::Integer(i) => -0x1000_0000 <= *i && *i < 0x1000_0000,
        Value::String(s) | Value::XmlDocument(s) | Value::Xml(s) => utf8_len(s.as_str()) < SIZE_LIMIT,
        Value::Array { assoc_entries, dense_entries } => {
            proof {
                lemma_values_view(dense_entries@);
            }
            dense_entries.len() < SIZE_LIMIT && pairs_ok(assoc_entries) && values_ok(dense_entries)
        },
        Value::Object { class_name, sealed_count, entries } => {
            proof {
                lemma_pairs_view(entries@);
            }
            *sealed_count <= entries.len() && *sealed_count < 0x200_0000 && name_ok(class_name)
                && pairs_ok(entries)
        },
        Value::ByteArray(b) => b.len() < SIZE_LIMIT,
        Value::IntVector { entries, .. } => entries.len() < SIZE_LIMIT,
        Value::UintVector { entries, .. } => entries.len() < SIZE_LIMIT,
        Value::DoubleVector { entries, .. } => entries.len() < SIZE_LIMIT,
        Value::ObjectVector { class_name, entries, .. } => {
            proof {
                lemma_values_view(entries@);
            }
            entries.len() < SIZE_LIMIT && name_ok(class_name) && values_ok(entries)
        },
        Value::Dictionary { entries, .. } => {
            proof {
                lemma_dict_view(entries@);
            }
            entries.len() < SIZE_LIMIT && dict_ok(entries)
        },
        _ => true,
    }
}

fn name_ok(n: &Option<String>) -> (r: bool)
    ensures
        r == opt_name_encodable(opt_str_view(*n)),
{
    match n {
        Some(s) => utf8_len(s.as_str()) < SIZE_LIMIT,
        None => true,
    }
}

fn values_ok(vs: &Vec<Value>) -> (r: bool)
    ensures
        r == values_encodable(values_view(vs@)),
    decreases vs,
{
    proof {
        lemma_values_view(vs@);
        lemma_values_encodable(values_view(vs@));
    }
    let mut i: usize = 0;
    while i < vs.len()
        invariant
            i <= vs@.len(),
            values_view(vs@).len() == vs@.len(),
            forall|j: int| 0 <= j < vs@.len() ==> #[trigger] values_view(vs@)[j] == vs@[j]@,
            forall|j: int| 0 <= j < i ==> encodable(#[trigger] values_view(vs@)[j]),
        decreases vs@.len() - i,
    {
        assert(decreases_to!(vs => vs@[i as int]));
        if !is_encodable(&vs[i]) {
            proof {
                lemma_values_encodable(values_view(vs@));
            }
            assert(!encodable(values_view(vs@)[i as int]));
            return false;
        }
        assert(encodable(values_view(vs@)[i as int]));
        i += 1;
    }
    true
}

fn pairs_ok(ps: &Vec<Pair<String, Value>>) -> (r: bool)
    ensures
        r == pairs_encodable(pairs_view(ps@)),
    decreases ps,
{
    proof {
        lemma_pairs_view(ps@);
        lemma_pairs_encodable(pairs_view(ps@));
    }
    let mut i: usize = 0;
    while i < ps.len()
        invariant
            i <= ps@.len(),
            pairs_view(ps@).len() == ps@.len(),
            forall|j: int| 0 <= j < ps@.len() ==> #[trigger] pairs_view(ps@)[j] == (ps@[j].key@, ps@[j].value@),
            forall|j: int| 0 <= j < i ==> #[trigger] member_encodable(pairs_view(ps@)[j]),
        decreases ps@.len() - i,
    {
        assert(decreases_to!(ps => ps@[i as int]));
        if utf8_len(ps[i].key.as_str()) >= SIZE_LIMIT || !is_encodable(&ps[i].value) {
            proof {
                lemma_pairs_encodable(pairs_view(ps@));
            }
            assert(!member_encodable(pairs_view(ps@)[i as int]));
            return false;
        }
        assert(member_encodable(pairs_view(ps@)[i as int]));
        i += 1;
    }
    true
}

fn dict_ok(ps: &Vec<Pair<Value, Value>>) -> (r: bool)
    ensures
        r == dict_encodable(dict_view(ps@)),
    decreases ps,
{
    proof {
        lemma_dict_view(ps@);
        lemma_dict_encodable(dict_view(ps@));
    }
    let mut i: usize = 0;
    while i < ps.len()
        invariant
            i <= ps@.len(),
            dict_view(ps@).len() == ps@.len(),
            forall|j: int| 0 <= j < ps@.len() ==> #[trigger] dict_view(ps@)[j] == (ps@[j].key@, ps@[j].value@),
            forall|j: int| 0 <= j < i ==> #[trigger] entry_encodable(dict_view(ps@)[j]),
        decreases ps@.len() - i,
    {
        assert(decreases_to!(ps => ps@[i as int]));
        if !is_encodable(&ps[i].key) || !is_encodable(&ps[i].value) {
            proof {
                lemma_dict_encodable(dict_view(ps@));
            }
            assert(!entry_encodable(dict_view(ps@)[i as int]));
            return false;
        }
        assert(entry_encodable(dict_view(ps@)[i as int]));
        i += 1;
    }
    true
}

/// AMF3 encoder: appends the encoding of values to a byte vector.
#[derive(Debug)]
pub struct Encoder {
    inner: Vec<u8>,
}

impl View for Encoder {
    type V = Seq<u8>;

    closed spec fn view(&self) -> Seq<u8> {
        self.inner@
    }
}

impl Encoder {
    /// Makes a new instance that appends to `inner`.
    pub fn new(inner: Vec<u8>) -> (r: Self)
        ensures
            r@ == inner@,
    {
        Encoder { inner }
    }

    /// Unwraps this `Encoder`, returning the bytes written so far.
    pub fn into_inner(self) -> (r: Vec<u8>)
        ensures
            r@ == self@,
    {
        self.inner
    }

    /// Returns a reference to the underlying bytes.
    pub fn inner(&mut self) -> (r: &mut Vec<u8>)
        ensures
            r@ == old(self)@,
            final(r)@ == final(self)@,
    {
        &mut self.inner
    }

    /// Encodes an AMF3 value; fails, writing nothing, where the value is not
    /// encodable.
    pub fn encode(&mut self, value: &Value) -> (r: Result<(), EncodeError>)
        ensures
            r is Ok <==> encodable(value@),
            r is Ok ==> final(self)@ == old(self)@ + enc(value@),
            r is Err ==> final(self)@ == old(self)@,
    {
        if !is_encodable(value) {
            return Err(EncodeError::OutOfRange);
        }
        self.encode_value(value);
        Ok(())
    }

    /// Encodes an AMF3 string outside of a value, as a literal; fails,
    /// writing nothing, where it is 2^28 bytes long or longer.
    pub fn encode_utf8(&mut self, s: &str) -> (r: Result<(), EncodeError>)
        ensures
            r is Ok <==> utf8(s@).len() < SIZE_LIMIT,
            r is Ok ==> final(self)@ == old(self)@ + str_bytes(s@),
            r is Err ==> final(self)@ == old(self)@,
    {
        if utf8_len(s) >= SIZE_LIMIT {
            return Err(EncodeError::OutOfRange);
        }
        self.write_utf8(s);
        Ok(())
    }

    fn encode_value(&mut self, value: &Value)
        requires
            encodable(value@),
        ensures
            final(self).inner@ == old(self).inner@ + enc(value@),
        decreases value, 2nat,
    {
        match value {
            Value::Undefined => self.encode_undefined(),
            Value::Null => self.encode_null(),
            Value::Boolean(x) => self.encode_boolean(*x),
            Value::Integer(x) => self.encode_integer(*x),
            Value::Double(x) => self.encode_double(*x),
            Value::String(x) => self.encode_string(x.as_str()),
            Value::XmlDocument(x) => self.encode_xml_document(x.as_str()),
            Value::Date { unix_time } => self.encode_date(*unix_time),
            Value::Array { .. } => self.encode_array(value),
            Value::Object { class_name, sealed_count, entries } => {
                self.encode_object(class_name, *sealed_count, entries);
            },
            Value::Xml(x) => self.encode_xml(x.as_str()),
            Value::ByteArray(x) => self.encode_byte_array(x),
            Value::IntVector { is_fixed, entries } => self.encode_int_vector(*is_fixed, entries),
            Value::UintVector { is_fixed, entries } => self.encode_uint_vector(*is_fixed, entries),
            Value::DoubleVector { is_fixed, entries } => self.encode_double_vector(*is_fixed, entries),
            Value::ObjectVector { .. } => self.encode_object_vector(value),
            Value::Dictionary { .. } => self.encode_dictionary(value),
        }
    }

    fn encode_array(&mut self, value: &Value)
        requires
            value is Array,
            encodable(value@),
        ensures
            final(self).inner@ == old(self).inner@ + enc(value@),
        decreases value, 1nat,
    {
        match value {
            Value::Array { assoc_entries, dense_entries } => {
                proof {
                    lemma_values_view(dense_entries@);
                    lemma_pairs_view(assoc_entries@);
                }
                let ghost pv = pairs_view(assoc_entries@);
                self.inner.push(ARRAY);
                self.encode_size(dense_entries.len());
                self.encode_pairs(assoc_entries, 0);
                self.encode_values(dense_entries);
                proof {
                    assert(pv.subrange(0, pv.len() as int) == pv);
                }
            },
            _ => {},
        }
    }

    fn encode_object_vector(&mut self, value: &Value)
        requires
            value is ObjectVector,
            encodable(value@),
        ensures
            final(self).inner@ == old(self).inner@ + enc(value@),
        decreases value, 1nat,
    {
        match value {
            Value::ObjectVector { class_name, is_fixed, entries } => {
                proof {
                    lemma_values_view(entries@);
                }
                self.inner.push(VECTOR_OBJECT);
                self.encode_size(entries.len());
                self.inner.push(*is_fixed as u8);
                match class_name {
                    Some(s) => self.write_utf8(s.as_str()),
                    None => {
                        self.inner.push(0x03);
                        self.inner.push(0x2A);
                    },
                }
                self.encode_values(entries);
            },
            _ => {},
        }
    }

    fn encode_dictionary(&mut self, value: &Value)
        requires
            value is Dictionary,
            encodable(value@),
        ensures
            final(self).inner@ == old(self).inner@ + enc(value@),
        decreases value, 1nat,
    {
        match value {
            Value::Dictionary { is_weak, entries } => {
                proof {
                    lemma_dict_view(entries@);
                }
                self.inner.push(DICTIONARY);
                self.encode_size(entries.len());
                self.inner.push(*is_weak as u8);
                self.encode_entries(entries);
            },
            _ => {},
        }
    }

    fn encode_undefined(&mut self)
        ensures
            final(self).inner@ == old(self).inner@ + enc(Model::Undefined),
    {
        self.inner.push(UNDEFINED);
    }

    fn encode_null(&mut self)
        ensures
            final(self).inner@ == old(self).inner@ + enc(Model::Null),
    {
        self.inner.push(NULL);
    }

    fn encode_boolean(&mut self, b: bool)
        ensures
            final(self).inner@ == old(self).inner@ + enc(Model::Boolean(b)),
    {
        if b {
            self.inner.push(TRUE);
        } else {
            self.inner.push(FALSE);
        }
    }

    fn encode_integer(&mut self, i: i32)
        requires
            -0x1000_0000 <= i < 0x1000_0000,
        ensures
            final(self).inner@ == old(self).inner@ + enc(Model::Integer(i)),
    {
        self.inner.push(INTEGER);
        let u29 = if i >= 0 {
            i as u32
        } else {
            (0x2000_0000 + i) as u32
        };
        self.encode_u29(u29);
    }

    fn encode_double(&mut self, d: u64)
        ensures
            final(self).inner@ == old(self).inner@ + enc(Model::Double(d)),
    {
        self.inner.push(DOUBLE);
        put_u64(&mut self.inner, d);
    }

    fn encode_string(&mut self, s: &str)
        requires
            utf8(s@).len() < SIZE_LIMIT,
        ensures
            final(self).inner@ == old(self).inner@ + enc(Model::String(s@)),
    {
        self.inner.push(STRING);
        self.write_utf8(s);
    }

    fn encode_xml_document(&mut self, s: &str)
        requires
            utf8(s@).len() < SIZE_LIMIT,
        ensures
            final(self).inner@ == old(self).inner@ + enc(Model::XmlDocument(s@)),
    {
        self.inner.push(XML_DOC);
        self.write_utf8(s);
    }

    fn encode_xml(&mut self, s: &str)
        requires
            utf8(s@).len() < SIZE_LIMIT,
        ensures
            final(self).inner@ == old(self).inner@ + enc(Model::Xml(s@)),
    {
        self.inner.push(XML);
        self.write_utf8(s);
    }

    fn encode_date(&mut self, unix_time: u64)
        ensures
            final(self).inner@ == old(self).inner@ + enc(Model::Date { unix_time }),
    {
        self.inner.push(DATE);
        self.encode_size(0);
        put_u64(&mut self.inner, bits_from_millis(unix_time));
    }

    fn encode_byte_array(&mut self, bytes: &Vec<u8>)
        requires
            bytes@.len() < SIZE_LIMIT,
        ensures
            final(self).inner@ == old(self).inner@ + enc(Model::ByteArray(bytes@)),
    {
        self.inner.push(BYTE_ARRAY);
        self.encode_size(bytes.len());
        crate::bytes::put_bytes(&mut self.inner, bytes.as_slice());
    }

    fn encode_int_vector(&mut self, is_fixed: bool, entries: &Vec<i32>)
        requires
            entries@.len() < SIZE_LIMIT,
        ensures
            final(self).inner@ == old(self).inner@ + enc(
                Model::IntVector { is_fixed, entries: entries@ },
            ),
    {
        self.inner.push(VECTOR_INT);
        self.encode_size(entries.len());
        self.inner.push(is_fixed as u8);
        let ghost start = self.inner@;
        let mut i: usize = 0;
        while i < entries.len()
            invariant
                i <= entries@.len(),
                self.inner@ == start + i32s_bytes(entries@.subrange(0, i as int)),
            decreases entries@.len() - i,
        {
            put_u32(&mut self.inner, entries[i] as u32);
            proof {
                assert(entries@.subrange(0, i + 1).drop_last() == entries@.subrange(0, i as int));
            }
            i += 1;
        }
        assert(entries@.subrange(0, i as int) == entries@);
    }

    fn encode_uint_vector(&mut self, is_fixed: bool, entries: &Vec<u32>)
        requires
            entries@.len() < SIZE_LIMIT,
        ensures
            final(self).inner@ == old(self).inner@ + enc(
                Model::UintVector { is_fixed, entries: entries@ },
            ),
    {
        self.inner.push(VECTOR_UINT);
        self.encode_size(entries.len());
        self.inner.push(is_fixed as u8);
        let ghost start = self.inner@;
        let mut i: usize = 0;
        while i < entries.len()
            invariant
                i <= entries@.len(),
                self.inner@ == start + u32s_bytes(entries@.subrange(0, i as int)),
            decreases entries@.len() - i,
        {
            put_u32(&mut self.inner, entries[i]);
            proof {
                assert(entries@.subrange(0, i + 1).drop_last() == entries@.subrange(0, i as int));
            }
            i += 1;
        }
        assert(entries@.subrange(0, i as int) == entries@);
    }

    fn encode_double_vector(&mut self, is_fixed: bool, entries: &Vec<u64>)
        requires
            entries@.len() < SIZE_LIMIT,
        ensures
            final(self).inner@ == old(self).inner@ + enc(
                Model::DoubleVector { is_fixed, entries: entries@ },
            ),
    {
        self.inner.push(VECTOR_DOUBLE);
        self.encode_size(entries.len());
        self.inner.push(is_fixed as u8);
        let ghost start = self.inner@;
        let mut i: usize = 0;
        while i < entries.len()
            invariant
                i <= entries@.len(),
                self.inner@ == start + u64s_bytes(entries@.subrange(0, i as int)),
            decreases entries@.len() - i,
        {
            put_u64(&mut self.inner, entries[i]);
            proof {
                assert(entries@.subrange(0, i + 1).drop_last() == entries@.subrange(0, i as int));
            }
            i += 1;
        }
        assert(entries@.subrange(0, i as int) == entries@);
    }

    fn encode_object(
        &mut self,
        class_name: &Option<String>,
        sealed_count: usize,
        entries: &Vec<Pair<String, Value>>,
    )
        requires
            encodable(
                Model::Object {
                    class_name: opt_str_view(*class_name),
                    sealed_count: sealed_count as nat,
                    entries: pairs_view(entries@),
                },
            ),
        ensures
            final(self).inner@ == old(self).inner@ + enc(
                Model::Object {
                    class_name: opt_str_view(*class_name),
                    sealed_count: sealed_count as nat,
                    entries: pairs_view(entries@),
                },
            ),
        decreases entries, 1nat,
    {
        proof {
            lemma_pairs_view(entries@);
        }
        let ghost pv = pairs_view(entries@);
        self.inner.push(OBJECT);
        self.encode_trait(class_name, sealed_count, entries);
        self.encode_members(entries, sealed_count);
        if entries.len() > sealed_count {
            self.encode_pairs(entries, sealed_count);
            proof {
                if sealed_count == 0 {
                    assert(pv.subrange(0, pv.len() as int) == pv);
                }
            }
        }
        proof {
            if sealed_count >= entries.len() {
                assert(pv.subrange(0, sealed_count as int) == pv);
            }
        }
    }

    fn encode_trait(
        &mut self,
        class_name: &Option<String>,
        sealed_count: usize,
        entries: &Vec<Pair<String, Value>>,
    )
        requires
            sealed_count <= entries@.len(),
            sealed_count < 0x200_0000,
            opt_name_encodable(opt_str_view(*class_name)),
            pairs_encodable(pairs_view(entries@)),
        ensures
            final(self).inner@ == old(self).inner@ + size_bytes(
                trait_header(sealed_count as nat, sealed_count < entries@.len()),
            ) + class_name_bytes(opt_str_view(*class_name)) + names_bytes(
                pairs_view(entries@).subrange(0, sealed_count as int),
            ),
    {
        proof {
            lemma_pairs_view(entries@);
            lemma_pairs_encodable(pairs_view(entries@));
        }
        let ghost pv = pairs_view(entries@);
        let is_dynamic: usize = if sealed_count < entries.len() {
            1
        } else {
            0
        };
        let u28 = (sealed_count * 8) + (is_dynamic * 4) + 1;
        self.encode_size(u28);
        match class_name {
            Some(s) => self.write_utf8(s.as_str()),
            None => self.write_empty_str(),
        }
        let ghost start = self.inner@;
        let mut i: usize = 0;
        while i < sealed_count
            invariant
                i <= sealed_count <= entries@.len(),
                pv == pairs_view(entries@),
                pv.len() == entries@.len(),
                forall|j: int| 0 <= j < entries@.len() ==> #[trigger] pv[j] == (entries@[j].key@, entries@[j].value@),
                forall|j: int| 0 <= j < pv.len() ==> #[trigger] member_encodable(pv[j]),
                self.inner@ == start + names_bytes(pv.subrange(0, i as int)),
            decreases sealed_count - i,
        {
            assert(pv[i as int].0 == entries@[i as int].key@);
            assert(member_encodable(pv[i as int]));
            self.write_utf8(entries[i].key.as_str());
            proof {
                assert(pv.subrange(0, i + 1).drop_last() == pv.subrange(0, i as int));
            }
            i += 1;
        }
    }

    /// The values of the first `count` members, without their names.
    fn encode_members(&mut self, entries: &Vec<Pair<String, Value>>, count: usize)
        requires
            count <= entries@.len(),
            pairs_encodable(pairs_view(entries@)),
        ensures
            final(self).inner@ == old(self).inner@ + enc_members(
                pairs_view(entries@).subrange(0, count as int),
            ),
        decreases entries, 0nat,
    {
        proof {
            lemma_pairs_view(entries@);
            lemma_pairs_encodable(pairs_view(entries@));
        }
        let ghost pv = pairs_view(entries@);
        let ghost start = self.inner@;
        let mut i: usize = 0;
        while i < count
            invariant
                i <= count <= entries@.len(),
                pv == pairs_view(entries@),
                pv.len() == entries@.len(),
                forall|j: int| 0 <= j < entries@.len() ==> #[trigger] pv[j] == (entries@[j].key@, entries@[j].value@),
                forall|j: int| 0 <= j < pv.len() ==> #[trigger] member_encodable(pv[j]),
                self.inner@ == start + enc_members(pv.subrange(0, i as int)),
            decreases count - i,
        {
            assert(decreases_to!(entries => entries@[i as int]));
            assert(pv[i as int].1 == entries@[i as int].value@);
            assert(member_encodable(pv[i as int]));
            self.encode_value(&entries[i].value);
            proof {
                assert(pv.subrange(0, i + 1).drop_last() == pv.subrange(0, i as int));
            }
            i += 1;
        }
    }

    /// Key-value pairs from index `lo` on, closed by the empty key.
    fn encode_pairs(&mut self, entries: &Vec<Pair<String, Value>>, lo: usize)
        requires
            lo <= entries@.len(),
            pairs_encodable(pairs_view(entries@)),
        ensures
            final(self).inner@ == old(self).inner@ + enc_pairs(
                pairs_view(entries@).subrange(lo as int, entries@.len() as int),
            ),
        decreases entries, 0nat,
    {
        proof {
            lemma_pairs_view(entries@);
            lemma_pairs_encodable(pairs_view(entries@));
        }
        let ghost pv = pairs_view(entries@);
        let ghost start = self.inner@;
        let mut i: usize = lo;
        while i < entries.len()
            invariant
                lo <= i <= entries@.len(),
                pv == pairs_view(entries@),
                pv.len() == entries@.len(),
                forall|j: int| 0 <= j < entries@.len() ==> #[trigger] pv[j] == (entries@[j].key@, entries@[j].value@),
                forall|j: int| 0 <= j < pv.len() ==> #[trigger] member_encodable(pv[j]),
                self.inner@ == start + enc_pair_list(pv.subrange(lo as int, i as int)),
            decreases entries@.len() - i,
        {
            assert(decreases_to!(entries => entries@[i as int]));
            assert(pv[i as int] == (entries@[i as int].key@, entries@[i as int].value@));
            assert(member_encodable(pv[i as int]));
            self.write_utf8(entries[i].key.as_str());
            self.encode_value(&entries[i].value);
            proof {
                assert(pv.subrange(lo as int, i + 1).drop_last() == pv.subrange(lo as int, i as int));
            }
            i += 1;
        }
        self.write_empty_str();
    }

    fn encode_values(&mut self, vs: &Vec<Value>)
        requires
            values_encodable(values_view(vs@)),
        ensures
            final(self).inner@ == old(self).inner@ + enc_values(values_view(vs@)),
        decreases vs, 0nat,
    {
        proof {
            lemma_values_view(vs@);
            lemma_values_encodable(values_view(vs@));
        }
        let ghost vv = values_view(vs@);
        let ghost start = self.inner@;
        let mut i: usize = 0;
        while i < vs.len()
            invariant
                i <= vs@.len(),
                vv == values_view(vs@),
                vv.len() == vs@.len(),
                forall|j: int| 0 <= j < vs@.len() ==> #[trigger] vv[j] == vs@[j]@,
                forall|j: int| 0 <= j < vv.len() ==> encodable(#[trigger] vv[j]),
                self.inner@ == start + enc_values(vv.subrange(0, i as int)),
            decreases vs@.len() - i,
        {
            assert(decreases_to!(vs => vs@[i as int]));
            assert(vv[i as int] == vs@[i as int]@);
            self.encode_value(&vs[i]);
            proof {
                assert(vv.subrange(0, i + 1).drop_last() == vv.subrange(0, i as int));
            }
            i += 1;
        }
        assert(vv.subrange(0, i as int) == vv);
    }

    fn encode_entries(&mut self, entries: &Vec<Pair<Value, Value>>)
        requires
            dict_encodable(dict_view(entries@)),
        ensures
            final(self).inner@ == old(self).inner@ + enc_dict(dict_view(entries@)),
        decreases entries, 0nat,
    {
        proof {
            lemma_dict_view(entries@);
            lemma_dict_encodable(dict_view(entries@));
        }
        let ghost dv = dict_view(entries@);
        let ghost start = self.inner@;
        let mut i: usize = 0;
        while i < entries.len()
            invariant
                i <= entries@.len(),
                dv == dict_view(entries@),
                dv.len() == entries@.len(),
                forall|j: int| 0 <= j < entries@.len() ==> #[trigger] dv[j] == (entries@[j].key@, entries@[j].value@),
                forall|j: int| 0 <= j < dv.len() ==> #[trigger] entry_encodable(dv[j]),
                self.inner@ == start + enc_dict(dv.subrange(0, i as int)),
            decreases entries@.len() - i,
        {
            assert(decreases_to!(entries => entries@[i as int]));
            assert(dv[i as int] == (entries@[i as int].key@, entries@[i as int].value@));
            assert(entry_encodable(dv[i as int]));
            self.encode_value(&entries[i].key);
            self.encode_value(&entries[i].value);
            proof {
                assert(dv.subrange(0, i + 1).drop_last() == dv.subrange(0, i as int));
            }
            i += 1;
        }
        assert(dv.subrange(0, i as int) == dv);
    }

    fn encode_size(&mut self, size: usize)
        requires
            size < SIZE_LIMIT,
        ensures
            final(self).inner@ == old(self).inner@ + size_bytes(size as nat),
    {
        self.encode_u29((size * 2 + 1) as u32);
    }

    fn encode_u29(&mut self, u29: u32)
        requires
            u29 < U29_LIMIT,
        ensures
            final(self).inner@ == old(self).inner@ + u29_bytes(u29),
    {
        if u29 < 0x80 {
            self.inner.push(u29 as u8);
        } else if u29 < 0x4000 {
            self.inner.push(((u29 >> 7) | 0x80) as u8);
            self.inner.push((u29 & 0x7F) as u8);
        } else if u29 < 0x20_0000 {
            self.inner.push(((u29 >> 14) | 0x80) as u8);
            self.inner.push((((u29 >> 7) & 0x7F) | 0x80) as u8);
            self.inner.push((u29 & 0x7F) as u8);
        } else {
            self.inner.push(((u29 >> 22) | 0x80) as u8);
            self.inner.push((((u29 >> 15) & 0x7F) | 0x80) as u8);
            self.inner.push((((u29 >> 8) & 0x7F) | 0x80) as u8);
            self.inner.push((u29 & 0xFF) as u8);
        }
    }

    fn write_empty_str(&mut self)
        ensures
            final(self).inner@ == old(self).inner@ + str_bytes(Seq::empty()),
    {
        assert(utf8(Seq::empty()) == Seq::<u8>::empty());
        self.encode_u29(1);
    }

    fn write_utf8(&mut self, s: &str)
        requires
            utf8(s@).len() < SIZE_LIMIT,
        ensures
            final(self).inner@ == old(self).inner@ + str_bytes(s@),
    {
        self.encode_size(utf8_len(s));
        put_str(&mut self.inner, s);
    }
}

/// Appends the encoding of an encodable value to `out`.
pub fn encode_into(out: &mut Vec<u8>, value: &Value)
    requires
        encodable(value@),
    ensures
        final(out)@ == old(out)@ + enc(value@),
{
    let mut buf: Vec<u8> = Vec::new();
    std::mem::swap(&mut buf, out);
    let mut encoder = Encoder { inner: buf };
    encoder.encode_value(value);
    let mut written = encoder.inner;
    std::mem::swap(&mut written, out);
}

} // verus!
