use amf::amf0::{Encoder, Value};
use amf::amf3;
use amf::error::EncodeError;
use amf::Pair;

fn cat(parts: &[Vec<u8>]) -> Vec<u8> {
    parts.concat()
}
fn key(k: &str) -> Vec<u8> {
    let mut v = (k.len() as u16).to_be_bytes().to_vec();
    v.extend_from_slice(k.as_bytes());
    v
}
fn bs(x: &str) -> Vec<u8> {
    cat(&[vec![0x02], key(x)])
}
fn bn(x: f64) -> Vec<u8> {
    cat(&[vec![0x00], x.to_be_bytes().to_vec()])
}
fn end() -> Vec<u8> {
    vec![0x00, 0x00, 0x09]
}
fn s(s: &str) -> Value {
    Value::String(s.to_string())
}
fn n(n: f64) -> Value {
    Value::Number(n.to_bits())
}
fn es(entries: &[(&str, Value)]) -> Vec<Pair<String, Value>> {
    entries
        .iter()
        .map(|e| Pair {
            key: e.0.to_string(),
            value: e.1.clone(),
        })
        .collect()
}
fn obj(name: Option<&str>, entries: &[(&str, Value)]) -> Value {
    Value::Object {
        class_name: name.map(|s| s.to_string()),
        entries: es(entries),
    }
}
fn encode_eq(value: Value, expected: &[u8]) {
    let mut buf = Vec::new();
    value.write_to(&mut buf).unwrap();
    assert_eq!(buf, expected);
}
fn round_trip(value: Value) {
    let mut buf = Vec::new();
    value.write_to(&mut buf).unwrap();
    assert_eq!(Value::read_from(&buf).unwrap(), value);
}

#[test]
fn encodes_number() {
    encode_eq(Value::Number(3.5f64.to_bits()), &[0x00, 0x40, 0x0C, 0, 0, 0, 0, 0, 0]);
}
#[test]
fn encode_encodes_boolean() {
    encode_eq(Value::Boolean(true), &[0x01, 0x01]);
    encode_eq(Value::Boolean(false), &[0x01, 0x00]);
}
#[test]
fn encode_encodes_string() {
    encode_eq(s("this is a テスト"), &bs("this is a テスト"));
    encode_eq(
        obj(
            None,
            &[("utf", s("UTF テスト")), ("zed", n(5.0)), ("shift", s("Shift テスト"))][..],
        ),
        &cat(&[
            vec![0x03],
            key("utf"),
            bs("UTF テスト"),
            key("zed"),
            bn(5.0),
            key("shift"),
            bs("Shift テスト"),
            end(),
        ]),
    );
}
#[test]
fn encodes_long_string() {
    let text: String = std::iter::repeat('a').take(0x10013).collect();
    let expected = cat(&[vec![0x0C, 0x00, 0x01, 0x00, 0x13], text.as_bytes().to_vec()]);
    encode_eq(Value::String(text), &expected);
}
#[test]
fn encode_encodes_object() {
    encode_eq(
        obj(None, &[("", s("")), ("foo", s("baz")), ("bar", n(3.14))][..]),
        &cat(&[vec![0x03], key(""), bs(""), key("foo"), bs("baz"), key("bar"), bn(3.14), end()]),
    );
    encode_eq(
        obj(None, &[("foo", s("bar")), ("baz", Value::Null)][..]),
        &cat(&[vec![0x03], key("foo"), bs("bar"), key("baz"), vec![0x05], end()]),
    );
}
#[test]
fn encode_encodes_null() {
    encode_eq(Value::Null, &[0x05]);
}
#[test]
fn encode_encodes_undefined() {
    encode_eq(Value::Undefined, &[0x06]);
}
#[test]
fn encodes_ecma_array() {
    let entries = es(&[("0", s("a")), ("1", s("b")), ("2", s("c")), ("3", s("d"))][..]);
    encode_eq(
        Value::EcmaArray { entries: entries },
        &cat(&[
            vec![0x08, 0, 0, 0, 4],
            key("0"),
            bs("a"),
            key("1"),
            bs("b"),
            key("2"),
            bs("c"),
            key("3"),
            bs("d"),
            end(),
        ]),
    );
}
#[test]
fn encodes_string_array() {
    encode_eq(
        Value::Array {
            entries: vec![n(1.0), s("2"), n(3.0)],
        },
        &cat(&[vec![0x0A, 0, 0, 0, 3], bn(1.0), bs("2"), bn(3.0)]),
    );
}
#[test]
fn encode_encodes_date() {
    encode_eq(
        Value::Date {
            unix_time: 1590796800_000,
        },
        &cat(&[vec![0x0B], 1590796800000.0f64.to_be_bytes().to_vec(), vec![0, 0]]),
    );
    encode_eq(
        Value::Date {
            unix_time: 1045112400_000,
        },
        &cat(&[vec![0x0B], 1045112400000.0f64.to_be_bytes().to_vec(), vec![0, 0]]),
    );
}
#[test]
fn encodes_xml_document() {
    let x = "<parent><child prop=\"test\" /></parent>";
    encode_eq(
        Value::XmlDocument(x.to_string()),
        &cat(&[vec![0x0F], (x.len() as u32).to_be_bytes().to_vec(), x.as_bytes().to_vec()]),
    );
}
#[test]
fn encodes_typed_object() {
    encode_eq(
        obj(Some("org.amf.ASClass"), &[("foo", s("bar")), ("baz", Value::Null)]),
        &cat(&[vec![0x10], key("org.amf.ASClass"), key("foo"), bs("bar"), key("baz"), vec![0x05], end()]),
    );
}
#[test]
fn encodes_avmplus() {
    let value = amf3::Value::Array {
        assoc_entries: vec![],
        dense_entries: (1..4).map(amf3::Value::Integer).collect(),
    };
    encode_eq(
        Value::AvmPlus(value),
        &[0x11, 0x09, 0x07, 0x01, 0x04, 0x01, 0x04, 0x02, 0x04, 0x03],
    );
}

#[test]
fn large_dates_round_to_the_nearest_double() {
    // 2^53 + 1 is not a binary64; it rounds to 2^53, ties to even.
    encode_eq(
        Value::Date { unix_time: (1u64 << 53) + 1 },
        &cat(&[vec![0x0B], ((1u64 << 53) as f64).to_be_bytes().to_vec(), vec![0, 0]]),
    );
    encode_eq(
        Value::Date { unix_time: u64::MAX },
        &cat(&[vec![0x0B], (u64::MAX as f64).to_be_bytes().to_vec(), vec![0, 0]]),
    );
    encode_eq(
        Value::Date { unix_time: (1u64 << 53) + 3 },
        &cat(&[vec![0x0B], (((1u64 << 53) + 3) as f64).to_be_bytes().to_vec(), vec![0, 0]]),
    );
}
#[test]
fn values_round_trip() {
    round_trip(n(-0.0));
    round_trip(Value::Number(f64::NAN.to_bits()));
    round_trip(obj(Some("C"), &[("", s("")), ("k", Value::Undefined)]));
    round_trip(Value::Array {
        entries: vec![Value::Null, Value::Boolean(true), Value::Date { unix_time: 1 << 52 }],
    });
    round_trip(Value::EcmaArray {
        entries: es(&[("a", obj(None, &[("b", n(1.5))]))]),
    });
    let text: String = std::iter::repeat('x').take(0x10000).collect();
    round_trip(Value::String(text));
    round_trip(Value::AvmPlus(amf3::Value::Integer(-1)));
}
#[test]
fn too_long_key_is_rejected() {
    let long_key: String = std::iter::repeat('k').take(0x10000).collect();
    let value = Value::Object {
        class_name: None,
        entries: vec![Pair { key: long_key, value: Value::Null }],
    };
    let mut buf = vec![0xAA];
    assert_eq!(value.write_to(&mut buf), Err(EncodeError::OutOfRange));
    assert_eq!(buf, vec![0xAA]);
}
#[test]
fn out_of_range_embedded_integer_is_rejected() {
    let mut encoder = Encoder::new(Vec::new());
    assert_eq!(
        encoder.encode(&Value::AvmPlus(amf3::Value::Integer(0x1000_0000))),
        Err(EncodeError::OutOfRange)
    );
    assert!(encoder.into_inner().is_empty());
}
#[test]
fn encoder_appends_values() {
    let mut encoder = Encoder::new(vec![0xFF]);
    encoder.encode(&Value::Null).unwrap();
    encoder.encode(&Value::Boolean(true)).unwrap();
    assert_eq!(encoder.into_inner(), vec![0xFF, 0x05, 0x01, 0x01]);
}
