use amf::amf3::Value;
use amf::error::DecodeError;
use amf::Pair;

fn cat(parts: &[Vec<u8>]) -> Vec<u8> {
    parts.concat()
}
/// The variable-length integer of the format.
fn u29(u: u32) -> Vec<u8> {
    if u < 0x80 {
        vec![u as u8]
    } else if u < 0x4000 {
        vec![((u >> 7) | 0x80) as u8, (u & 0x7F) as u8]
    } else if u < 0x20_0000 {
        vec![((u >> 14) | 0x80) as u8, (((u >> 7) & 0x7F) | 0x80) as u8, (u & 0x7F) as u8]
    } else {
        vec![
            ((u >> 22) | 0x80) as u8,
            (((u >> 15) & 0x7F) | 0x80) as u8,
            (((u >> 8) & 0x7F) | 0x80) as u8,
            (u & 0xFF) as u8,
        ]
    }
}
fn size(n: usize) -> Vec<u8> {
    u29((n as u32) << 1 | 1)
}
fn reference(i: usize) -> Vec<u8> {
    u29((i as u32) << 1)
}
fn text(x: &str) -> Vec<u8> {
    cat(&[size(x.len()), x.as_bytes().to_vec()])
}
fn bs(x: &str) -> Vec<u8> {
    cat(&[vec![0x06], text(x)])
}
fn bi(n: u8) -> Vec<u8> {
    vec![0x04, n]
}
fn bd(x: f64) -> Vec<u8> {
    cat(&[vec![0x05], x.to_be_bytes().to_vec()])
}
fn dense(n: usize) -> Vec<u8> {
    cat(&[vec![0x09], size(n), vec![0x01]])
}
const XML_DOC: &str = "<parent><child prop=\"test\" /></parent>";
const XML: &str = "<parent><child prop=\"test\"/></parent>";

fn i(i: i32) -> Value {
    Value::Integer(i)
}
fn s(s: &str) -> Value {
    Value::String(s.to_string())
}
fn dense_array(entries: &[Value]) -> Value {
    Value::Array {
        assoc_entries: Vec::new(),
        dense_entries: entries.iter().cloned().collect(),
    }
}
fn pair(key: &str, value: Value) -> Pair<String, Value> {
    Pair {
        key: key.to_string(),
        value: value,
    }
}
fn dic(entries: &[(Value, Value)]) -> Value {
    Value::Dictionary {
        is_weak: false,
        entries: entries
            .iter()
            .map(|e| Pair {
                key: e.0.clone(),
                value: e.1.clone(),
            })
            .collect(),
    }
}
fn obj(entries: &[(&str, Value)]) -> Value {
    Value::Object {
        class_name: None,
        sealed_count: 0,
        entries: entries.iter().map(|e| pair(e.0, e.1.clone())).collect(),
    }
}
fn typed_obj(class: &str, entries: &[(&str, Value)]) -> Value {
    Value::Object {
        class_name: Some(class.to_string()),
        sealed_count: entries.len(),
        entries: entries.iter().map(|e| pair(e.0, e.1.clone())).collect(),
    }
}

pub fn typed_object_bytes() -> Vec<u8> {
    cat(&[vec![0x0A, 0x23], text("org.amf.ASClass"), text("foo"), text("baz"), bs("bar"), vec![0x01]])
}

fn decode(bytes: &[u8]) -> Result<Value, DecodeError> {
    Value::read_from(bytes)
}
fn decode_eq(bytes: &[u8], expected: Value) {
    assert_eq!(decode(bytes).unwrap(), expected);
}
fn decode_unexpected_eof(bytes: &[u8]) {
    match decode(bytes) {
        Err(DecodeError::UnexpectedEof) => {}
        other => panic!("expected the end of the input, got {:?}", other),
    }
}

#[test]
fn decodes_undefined() {
    decode_eq(&[0x00], Value::Undefined);
}
#[test]
fn decodes_null() {
    decode_eq(&[0x01], Value::Null);
}
#[test]
fn decodes_boolean() {
    decode_eq(&[0x03], Value::Boolean(true));
    decode_eq(&[0x02], Value::Boolean(false));
}
#[test]
fn decodes_integer() {
    decode_eq(&[0x04, 0x00], Value::Integer(0));
    decode_eq(&[0x04, 0xC0, 0x80, 0x80, 0x00], Value::Integer(-0x1000_0000));
    decode_eq(&[0x04, 0xBF, 0xFF, 0xFF, 0xFF], Value::Integer(0x0FFF_FFFF));
    decode_eq(&[0x04, 0x81, 0x00], Value::Integer(0b10000000));
    decode_eq(&[0x04, 0x81, 0x80, 0x00], Value::Integer(0b100000000000000));
    decode_eq(&[0x04, 0xFF, 0xFF, 0xFF, 0xFF], Value::Integer(-1));
}
#[test]
fn decodes_double() {
    decode_eq(&bd(3.5), Value::Double(3.5f64.to_bits()));
    decode_eq(&bd(2f64.powf(1000f64)), Value::Double(2f64.powf(1000f64).to_bits()));
    decode_eq(&bd(-0x1000_0001 as f64), Value::Double((-0x1000_0001 as f64).to_bits()));
    decode_eq(&bd(0x1000_0000 as f64), Value::Double((0x1000_0000 as f64).to_bits()));
    decode_eq(&bd(f64::INFINITY), Value::Double(f64::INFINITY.to_bits()));
}
#[test]
fn decodes_string() {
    decode_eq(&bs("String . String"), s("String . String"));
    decode_eq(&bs("foo"), s("foo"));
    let string_ref = cat(&[
        dense(6),
        bs("foo"),
        bs("str"),
        vec![0x06],
        reference(0),
        vec![0x06],
        reference(1),
        vec![0x06],
        reference(0),
        vec![0x0A, 0x0B, 0x01],
        reference(1),
        vec![0x06],
        reference(0),
        vec![0x01],
    ]);
    decode_eq(
        &string_ref,
        dense_array(&[s("foo"), s("str"), s("foo"), s("str"), s("foo"), obj(&[("str", s("foo"))][..])][..]),
    );
    let encoded_ref = cat(&[dense(2), bs("this is a テスト"), vec![0x06], reference(0)]);
    decode_eq(
        &encoded_ref,
        dense_array(&[s("this is a テスト"), s("this is a テスト")][..]),
    );
    let complex = cat(&[dense(4), bi(5), bs("Shift テスト"), bs("UTF テスト"), bi(5)]);
    decode_eq(
        &complex,
        dense_array(&[i(5), s("Shift テスト"), s("UTF テスト"), i(5)][..]),
    );
    let empty_ref = cat(&[dense(2), bs(""), bs("")]);
    decode_eq(&empty_ref, dense_array(&[s(""), s("")][..]));
}
#[test]
fn decodes_array() {
    let primitive = cat(&[dense(5), bi(1), bi(2), bi(3), bi(4), bi(5)]);
    decode_eq(&primitive, dense_array(&[i(1), i(2), i(3), i(4), i(5)][..]));

    let empty_ref = cat(&[dense(4), dense(0), vec![0x09], reference(1), vec![0x09], reference(1), vec![0x09], reference(1)]);
    decode_eq(
        &empty_ref,
        dense_array(&[dense_array(&[][..]), dense_array(&[][..]), dense_array(&[][..]), dense_array(&[][..])][..]),
    );

    let array_ref = cat(&[
        dense(4),
        dense(3),
        bi(1),
        bi(2),
        bi(3),
        dense(3),
        bs("a"),
        bs("b"),
        bs("c"),
        vec![0x09],
        reference(1),
        vec![0x09],
        reference(2),
    ]);
    decode_eq(
        &array_ref,
        dense_array(&[
            dense_array(&[i(1), i(2), i(3)][..]),
            dense_array(&[s("a"), s("b"), s("c")][..]),
            dense_array(&[i(1), i(2), i(3)][..]),
            dense_array(&[s("a"), s("b"), s("c")][..]),
        ][..]),
    );

    let assoc = cat(&[
        vec![0x09],
        size(3),
        text("2"),
        bs("bar3"),
        text("foo"),
        bs("bar"),
        text("asdf"),
        bs("fdsa"),
        vec![0x01],
        vec![0x06],
        reference(3),
        bs("bar1"),
        bs("bar2"),
    ]);
    decode_eq(
        &assoc,
        Value::Array {
            assoc_entries: [("2", s("bar3")), ("foo", s("bar")), ("asdf", s("fdsa"))]
                .iter()
                .map(|e| pair(e.0, e.1.clone()))
                .collect(),
            dense_entries: vec![s("bar"), s("bar1"), s("bar2")],
        },
    );

    let o1 = obj(&[("foo_one", s("bar_one"))][..]);
    let o2 = obj(&[("foo_two", s(""))][..]);
    let o3 = obj(&[("foo_three", i(42))][..]);
    let empty = obj(&[][..]);
    let mixed = cat(&[
        dense(13),
        vec![0x0A, 0x0B, 0x01],
        text("foo_one"),
        bs("bar_one"),
        vec![0x01],
        vec![0x0A, 0x01],
        text("foo_two"),
        bs(""),
        vec![0x01],
        vec![0x0A, 0x01],
        text("foo_three"),
        bi(42),
        vec![0x01],
        vec![0x0A, 0x01, 0x01],
        dense(3),
        vec![0x0A],
        reference(1),
        vec![0x0A],
        reference(2),
        vec![0x0A],
        reference(3),
        dense(0),
        bi(42),
        bs(""),
        dense(0),
        bs(""),
        vec![0x0A],
        reference(4),
        vec![0x06],
        reference(1),
        vec![0x0A],
        reference(3),
    ]);
    decode_eq(
        &mixed,
        dense_array(&[
            o1.clone(),
            o2.clone(),
            o3.clone(),
            empty.clone(),
            dense_array(&[o1, o2, o3.clone()][..]),
            dense_array(&[][..]),
            i(42),
            s(""),
            dense_array(&[][..]),
            s(""),
            empty,
            s("bar_one"),
            o3,
        ][..]),
    );
}
#[test]
fn decodes_object() {
    let o = obj(&[("foo", s("bar"))][..]);
    let object_ref = cat(&[
        dense(3),
        dense(2),
        vec![0x0A, 0x0B, 0x01],
        text("foo"),
        bs("bar"),
        vec![0x01],
        vec![0x0A],
        reference(2),
        vec![0x06],
        reference(1),
        vec![0x09],
        reference(1),
    ]);
    decode_eq(
        &object_ref,
        dense_array(&[dense_array(&[o.clone(), o.clone()][..]), s("bar"), dense_array(&[o.clone(), o.clone()][..])][..]),
    );

    let dynamic = cat(&[
        vec![0x0A, 0x0B, 0x01],
        text("property_one"),
        bs("foo"),
        text("another_public_property"),
        bs("a_public_value"),
        text("nil_property"),
        vec![0x01],
        vec![0x01],
    ]);
    decode_eq(
        &dynamic,
        obj(&[("property_one", s("foo")), ("another_public_property", s("a_public_value")), ("nil_property", Value::Null)][..]),
    );

    decode_eq(
        &typed_object_bytes(),
        typed_obj("org.amf.ASClass", &[("foo", s("bar")), ("baz", Value::Null)][..]),
    );

    let trait_ref = cat(&[
        dense(2),
        vec![0x0A, 0x23],
        text("org.amf.ASClass"),
        text("foo"),
        text("baz"),
        vec![0x06],
        reference(1),
        vec![0x01],
        vec![0x0A, 0x01],
        bs("bar"),
        vec![0x01],
    ]);
    let o = [
        typed_obj("org.amf.ASClass", &[("foo", s("foo")), ("baz", Value::Null)]),
        typed_obj("org.amf.ASClass", &[("foo", s("bar")), ("baz", Value::Null)]),
    ];
    decode_eq(&trait_ref, dense_array(&o[..]));

    let hash = cat(&[vec![0x0A, 0x0B, 0x01], text("foo"), bs("bar"), text("answer"), bi(42), vec![0x01]]);
    decode_eq(&hash, obj(&[("foo", s("bar")), ("answer", i(42))][..]));

    let externalizable = cat(&[vec![0x0A, 0x07], text("ExternalizableTest"), vec![0x00]]);
    assert_eq!(
        decode(&externalizable),
        Err(DecodeError::ExternalizableType {
            name: "ExternalizableTest".to_string()
        })
    );
    let collection = cat(&[vec![0x0A, 0x07], text("flex.messaging.io.ArrayCollection"), dense(0)]);
    assert_eq!(
        decode(&collection),
        Err(DecodeError::ExternalizableType {
            name: "flex.messaging.io.ArrayCollection".to_string(),
        })
    );
}
#[test]
fn decodes_xml_doc() {
    decode_eq(&cat(&[vec![0x07], text(XML_DOC)]), Value::XmlDocument(XML_DOC.to_string()));
}
#[test]
fn decodes_xml() {
    let xml = Value::Xml(XML.to_string());
    decode_eq(&cat(&[vec![0x0B], text(XML)]), xml.clone());
    let xml_ref = cat(&[dense(2), vec![0x0B], text(XML), vec![0x0B], reference(1)]);
    decode_eq(&xml_ref, dense_array(&[xml.clone(), xml][..]));
}
#[test]
fn decodes_byte_array() {
    let bytes = vec![0, 3, 227, 129, 147, 227, 130, 140, 116, 101, 115, 116, 64];
    decode_eq(&cat(&[vec![0x0C], size(13), bytes.clone()]), Value::ByteArray(bytes));
    let b = Value::ByteArray("ASDF".as_bytes().iter().cloned().collect());
    let byte_ref = cat(&[dense(2), vec![0x0C], size(4), b"ASDF".to_vec(), vec![0x0C], reference(1)]);
    decode_eq(&byte_ref, dense_array(&[b.clone(), b][..]));
}
#[test]
fn decodes_date() {
    let d = Value::Date { unix_time: 0 };
    let date = cat(&[vec![0x08, 0x01], 0.0f64.to_be_bytes().to_vec()]);
    decode_eq(&date, d.clone());
    let date_ref = cat(&[dense(2), date, vec![0x08], reference(1)]);
    decode_eq(&date_ref, dense_array(&[d.clone(), d][..]));
}
#[test]
fn decodes_dictionary() {
    let entries = vec![
        (s("bar"), s("asdf1")),
        (typed_obj("org.amf.ASClass", &[("foo", s("baz")), ("baz", Value::Null)][..]), s("asdf2")),
    ];
    let bytes = cat(&[
        vec![0x11],
        size(2),
        vec![0x00],
        bs("bar"),
        bs("asdf1"),
        vec![0x0A, 0x23],
        text("org.amf.ASClass"),
        text("foo"),
        text("baz"),
        vec![0x06],
        reference(4),
        vec![0x01],
        bs("asdf2"),
    ]);
    decode_eq(&bytes, dic(&entries));
    decode_eq(&[0x11, 0x01, 0x00], dic(&[][..]));
}
#[test]
fn decodes_vector() {
    let ints = cat(&[vec![0x0D, 0x07, 0x00], 4i32.to_be_bytes().to_vec(), (-20i32).to_be_bytes().to_vec(), 12i32.to_be_bytes().to_vec()]);
    decode_eq(&ints, Value::IntVector { is_fixed: false, entries: vec![4, -20, 12] });
    let uints = cat(&[vec![0x0E, 0x07, 0x00], 4u32.to_be_bytes().to_vec(), 20u32.to_be_bytes().to_vec(), 12u32.to_be_bytes().to_vec()]);
    decode_eq(&uints, Value::UintVector { is_fixed: false, entries: vec![4, 20, 12] });
    let doubles = cat(&[vec![0x0F, 0x05, 0x00], 4.3f64.to_be_bytes().to_vec(), (-20.6f64).to_be_bytes().to_vec()]);
    decode_eq(
        &doubles,
        Value::DoubleVector { is_fixed: false, entries: vec![4.3f64.to_bits(), (-20.6f64).to_bits()] },
    );

    let objects = vec![
        typed_obj("org.amf.ASClass", &[("foo", s("foo")), ("baz", Value::Null)][..]),
        typed_obj("org.amf.ASClass", &[("foo", s("bar")), ("baz", Value::Null)][..]),
        typed_obj("org.amf.ASClass", &[("foo", s("baz")), ("baz", Value::Null)][..]),
    ];
    let vector = cat(&[
        vec![0x10, 0x07, 0x00],
        text("org.amf.ASClass"),
        vec![0x0A, 0x23],
        reference(0),
        text("foo"),
        text("baz"),
        vec![0x06],
        reference(1),
        vec![0x01],
        vec![0x0A, 0x01],
        bs("bar"),
        vec![0x01],
        vec![0x0A, 0x01, 0x06],
        reference(2),
        vec![0x01],
    ]);
    decode_eq(
        &vector,
        Value::ObjectVector {
            class_name: Some("org.amf.ASClass".to_string()),
            is_fixed: false,
            entries: objects,
        },
    );
}
#[test]
fn other_errors() {
    let graph_member = cat(&[vec![0x0A, 0x0B, 0x01], text("foo"), vec![0x0A], reference(0), vec![0x01]]);
    assert_eq!(decode(&graph_member), Err(DecodeError::CircularReference { index: 0 }));
    assert_eq!(decode(&cat(&[vec![0x0A], reference(10)])), Err(DecodeError::OutOfRangeReference { index: 10 }));
    assert_eq!(decode(&[0x0A, 0x11, 0x01]), Err(DecodeError::OutOfRangeReference { index: 4 }));
    assert_eq!(decode(&cat(&[vec![0x06], reference(8)])), Err(DecodeError::OutOfRangeReference { index: 8 }));
    assert_eq!(decode(&[0x7B]), Err(DecodeError::Unknown { marker: 123 }));
    assert_eq!(
        decode(&cat(&[vec![0x08, 0x01], f64::INFINITY.to_be_bytes().to_vec()])),
        Err(DecodeError::InvalidDate { millis: f64::INFINITY.to_bits() })
    );
    assert_eq!(
        decode(&cat(&[vec![0x08, 0x01], (-1.0f64).to_be_bytes().to_vec()])),
        Err(DecodeError::InvalidDate { millis: (-1.0f64).to_bits() })
    );
    decode_unexpected_eof(&[]);
    decode_unexpected_eof(&[0x05, 0x40, 0x0C]);
    decode_unexpected_eof(&[0x08, 0x01, 0x00, 0x00]);
    decode_unexpected_eof(&cat(&[vec![0x11], size(2), vec![0x00], bs("bar"), vec![0x06, 0x0B, b'a']]));
    decode_unexpected_eof(&[0x10, 0x07, 0x00]);
    decode_unexpected_eof(&[0x0D, 0x07, 0x00, 0x00, 0x00, 0x00, 0x04, 0xFF]);
    decode_unexpected_eof(&[0x0E, 0x07, 0x00, 0x00, 0x00, 0x00, 0x04, 0x00]);
    decode_unexpected_eof(&cat(&[vec![0x0B], size(XML.len()), b"<par".to_vec()]));
    decode_unexpected_eof(&[0x06, 0x07, b'f', b'o']);
    decode_unexpected_eof(&[0x04, 0x81]);
}
#[test]
fn empty_class_name_and_dynamic_tail() {
    // A sealed member, then a dynamic one.
    let bytes = cat(&[vec![0x0A, 0x1B, 0x01], text("a"), bi(1), text("b"), bi(2), vec![0x01]]);
    assert_eq!(
        decode(&bytes).unwrap(),
        Value::Object {
            class_name: None,
            sealed_count: 1,
            entries: vec![pair("a", i(1)), pair("b", i(2))],
        }
    );
}
#[test]
fn any_type_vector_has_no_class_name() {
    let bytes = cat(&[vec![0x10, 0x03, 0x01], text("*"), vec![0x01]]);
    assert_eq!(
        decode(&bytes).unwrap(),
        Value::ObjectVector { class_name: None, is_fixed: true, entries: vec![Value::Null] }
    );
}
#[test]
fn every_truncated_amf3_sample_ends_early() {
    let samples = vec![
        vec![0x04, 0xC0, 0x80, 0x80, 0x00],
        vec![0x04, 0x81, 0x00],
        bd(3.5),
        bs("foo"),
        cat(&[vec![0x07], text(XML_DOC)]),
        cat(&[vec![0x08, 0x01], 0.0f64.to_be_bytes().to_vec()]),
        cat(&[vec![0x0C], size(4), b"ASDF".to_vec()]),
        cat(&[dense(2), bs("a"), bi(1)]),
        typed_object_bytes(),
        vec![0x0D, 0x03, 0x00, 0x00, 0x00, 0x00, 0x04],
    ];
    for sample in samples {
        for n in 0..sample.len() {
            decode_unexpected_eof(&sample[..n]);
        }
    }
}
