use amf::amf3::{Encoder, Value};
use amf::error::EncodeError;
use amf::Pair;

fn cat(parts: &[Vec<u8>]) -> Vec<u8> {
    parts.concat()
}
fn text(x: &str) -> Vec<u8> {
    assert!(x.len() < 0x40);
    cat(&[vec![(x.len() as u8) << 1 | 1], x.as_bytes().to_vec()])
}
fn bs(x: &str) -> Vec<u8> {
    cat(&[vec![0x06], text(x)])
}

fn i(i: i32) -> Value {
    Value::Integer(i)
}
fn s(s: &str) -> Value {
    Value::String(s.to_string())
}
fn pair(key: &str, value: Value) -> Pair<String, Value> {
    Pair { key: key.to_string(), value }
}
fn dense_array(entries: &[Value]) -> Value {
    Value::Array {
        assoc_entries: Vec::new(),
        dense_entries: entries.to_vec(),
    }
}
fn dic(entries: &[(Value, Value)]) -> Value {
    Value::Dictionary {
        is_weak: false,
        entries: entries
            .iter()
            .map(|e| Pair {
                key: e.0.clone(),
                value: e.1.clone(),
            })
            .collect(),
    }
}
fn obj(entries: &[(&str, Value)]) -> Value {
    Value::Object {
        class_name: None,
        sealed_count: 0,
        entries: entries.iter().map(|e| pair(e.0, e.1.clone())).collect(),
    }
}
fn typed_obj(class: &str, entries: &[(&str, Value)]) -> Value {
    Value::Object {
        class_name: Some(class.to_string()),
        sealed_count: entries.len(),
        entries: entries.iter().map(|e| pair(e.0, e.1.clone())).collect(),
    }
}
fn encode_eq(value: Value, expected: &[u8]) {
    let mut buf = Vec::new();
    value.write_to(&mut buf).unwrap();
    assert_eq!(buf, expected);
}
fn encode_and_decode(v: Value) {
    let mut buf = Vec::new();
    v.write_to(&mut buf).unwrap();
    assert_eq!(v, Value::read_from(&buf).unwrap());
}

#[test]
fn encodes_undefined() {
    encode_eq(Value::Undefined, &[0x00]);
}
#[test]
fn encodes_null() {
    encode_eq(Value::Null, &[0x01]);
}
#[test]
fn encodes_boolean() {
    encode_eq(Value::Boolean(true), &[0x03]);
    encode_eq(Value::Boolean(false), &[0x02]);
}
#[test]
fn encodes_integer() {
    encode_eq(Value::Integer(0), &[0x04, 0x00]);
    encode_eq(Value::Integer(0b1000_0000), &[0x04, 0x81, 0x00]);
    encode_eq(Value::Integer(0b100_0000_0000_0000), &[0x04, 0x81, 0x80, 0x00]);
    encode_eq(Value::Integer(-0x1000_0000), &[0x04, 0xC0, 0x80, 0x80, 0x00]);
    encode_eq(Value::Integer(0xFFF_FFFF), &[0x04, 0xBF, 0xFF, 0xFF, 0xFF]);
}
#[test]
fn encodes_double() {
    let d = |x: f64| cat(&[vec![0x05], x.to_be_bytes().to_vec()]);
    encode_eq(Value::Double(3.5f64.to_bits()), &d(3.5));
    encode_eq(Value::Double(2f64.powf(1000f64).to_bits()), &d(2f64.powf(1000f64)));
    encode_eq(Value::Double((-0x1000_0001 as f64).to_bits()), &d(-0x1000_0001 as f64));
    encode_eq(Value::Double(268_435_456_f64.to_bits()), &d(268_435_456_f64));
}
#[test]
fn encodes_string() {
    encode_eq(s("String . String"), &bs("String . String"));
    encode_eq(
        dense_array(&[i(5), s("Shift テスト"), s("UTF テスト"), i(5)][..]),
        &cat(&[vec![0x09, 0x09, 0x01, 0x04, 0x05], bs("Shift テスト"), bs("UTF テスト"), vec![0x04, 0x05]]),
    );
}
#[test]
fn encodes_array() {
    encode_eq(
        dense_array(&[i(1), i(2), i(3), i(4), i(5)][..]),
        &[0x09, 0x0B, 0x01, 0x04, 0x01, 0x04, 0x02, 0x04, 0x03, 0x04, 0x04, 0x04, 0x05],
    );
    encode_and_decode(Value::Array {
        assoc_entries: [("2", s("bar3")), ("foo", s("bar")), ("asdf", s("fdsa"))]
            .iter()
            .map(|e| pair(e.0, e.1.clone()))
            .collect(),
        dense_entries: vec![s("bar"), s("bar1"), s("bar2")],
    });
}
#[test]
fn encodes_object() {
    encode_eq(
        typed_obj("org.amf.ASClass", &[("foo", s("bar")), ("baz", Value::Null)][..]),
        &cat(&[vec![0x0A, 0x23], text("org.amf.ASClass"), text("foo"), text("baz"), bs("bar"), vec![0x01]]),
    );
    encode_eq(
        obj(&[("foo", s("bar")), ("answer", i(42))][..]),
        &cat(&[vec![0x0A, 0x0B, 0x01], text("foo"), bs("bar"), text("answer"), vec![0x04, 0x2A, 0x01]]),
    );
}
#[test]
fn encodes_xml_doc() {
    let x = "<parent><child prop=\"test\" /></parent>";
    encode_eq(Value::XmlDocument(x.to_string()), &cat(&[vec![0x07], text(x)]));
}
#[test]
fn encodes_xml() {
    let x = "<parent><child prop=\"test\"/></parent>";
    encode_eq(Value::Xml(x.to_string()), &cat(&[vec![0x0B], text(x)]));
}
#[test]
fn encodes_byte_array() {
    let bytes = vec![0, 3, 227, 129, 147, 227, 130, 140, 116, 101, 115, 116, 64];
    encode_eq(Value::ByteArray(bytes.clone()), &cat(&[vec![0x0C, 0x1B], bytes]));
}
#[test]
fn encodes_date() {
    let d = Value::Date { unix_time: 0 };
    encode_eq(d, &[0x08, 0x01, 0, 0, 0, 0, 0, 0, 0, 0]);
}
#[test]
fn encodes_dictionary() {
    let entries = vec![
        (s("bar"), s("asdf1")),
        (typed_obj("org.amf.ASClass", &[("foo", s("baz")), ("baz", Value::Null)][..]), s("asdf2")),
    ];
    encode_and_decode(dic(&entries));
    encode_eq(dic(&[][..]), &[0x11, 0x01, 0x00]);
}
#[test]
fn encodes_vector() {
    encode_eq(
        Value::IntVector { is_fixed: false, entries: vec![4, -20, 12] },
        &cat(&[vec![0x0D, 0x07, 0x00], 4i32.to_be_bytes().to_vec(), (-20i32).to_be_bytes().to_vec(), 12i32.to_be_bytes().to_vec()]),
    );
    encode_eq(
        Value::UintVector { is_fixed: false, entries: vec![4, 20, 12] },
        &cat(&[vec![0x0E, 0x07, 0x00], 4u32.to_be_bytes().to_vec(), 20u32.to_be_bytes().to_vec(), 12u32.to_be_bytes().to_vec()]),
    );
    encode_eq(
        Value::DoubleVector { is_fixed: false, entries: vec![4.3f64.to_bits(), (-20.6f64).to_bits()] },
        &cat(&[vec![0x0F, 0x05, 0x00], 4.3f64.to_be_bytes().to_vec(), (-20.6f64).to_be_bytes().to_vec()]),
    );
    let objects = vec![
        typed_obj("org.amf.ASClass", &[("foo", s("foo")), ("baz", Value::Null)][..]),
        typed_obj("org.amf.ASClass", &[("foo", s("bar")), ("baz", Value::Null)][..]),
        typed_obj("org.amf.ASClass", &[("foo", s("baz")), ("baz", Value::Null)][..]),
    ];
    encode_and_decode(Value::ObjectVector {
        class_name: Some("org.amf.ASClass".to_string()),
        is_fixed: false,
        entries: objects,
    });
}

#[test]
fn integer_boundaries_round_trip() {
    for n in [0, -1, 0x0FFF_FFFF, -0x1000_0000, 127, 128, 0x3FFF, 0x4000, 0x1F_FFFF, 0x20_0000] {
        encode_and_decode(Value::Integer(n));
    }
}
#[test]
fn integers_outside_29_bits_are_rejected() {
    for n in [0x1000_0000, -0x1000_0001, i32::MAX, i32::MIN] {
        let mut buf = Vec::new();
        assert_eq!(Value::Integer(n).write_to(&mut buf), Err(EncodeError::OutOfRange));
        assert!(buf.is_empty());
    }
}
#[test]
fn sealed_count_beyond_entries_is_rejected() {
    let v = Value::Object { class_name: None, sealed_count: 2, entries: vec![pair("a", Value::Null)] };
    assert_eq!(v.write_to(&mut Vec::new()), Err(EncodeError::OutOfRange));
}
#[test]
fn amf3_values_round_trip() {
    encode_and_decode(Value::Object {
        class_name: Some("C".to_string()),
        sealed_count: 1,
        entries: vec![pair("a", i(1)), pair("b", s("x"))],
    });
    encode_and_decode(Value::ObjectVector { class_name: None, is_fixed: true, entries: vec![Value::Null] });
    encode_and_decode(Value::Date { unix_time: 1_045_112_400_000 });
    encode_and_decode(Value::ByteArray(vec![]));
    encode_and_decode(Value::Xml(String::new()));
}
#[test]
fn encode_utf8_writes_a_literal_string() {
    let mut encoder = Encoder::new(Vec::new());
    encoder.encode_utf8("foo").unwrap();
    encoder.inner().push(0x01);
    assert_eq!(encoder.into_inner(), vec![0x07, b'f', b'o', b'o', 0x01]);
}
#[test]
fn amf3_try_into_values_and_pairs() {
    let v = Value::UintVector { is_fixed: false, entries: vec![3] };
    assert_eq!(v.try_into_values().unwrap(), vec![Value::Double(3.0f64.to_bits())]);
    let o = obj(&[("k", Value::Null)]);
    assert_eq!(o.try_into_pairs().unwrap(), vec![pair("k", Value::Null)]);
    assert_eq!(Value::Null.try_into_pairs(), Err(Value::Null));
    assert_eq!(Value::Xml("x".to_string()).try_as_str(), Some("x"));
}
