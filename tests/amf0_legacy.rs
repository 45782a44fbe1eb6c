use amf::amf0::Value;
use amf::Pair;

fn cat(parts: &[Vec<u8>]) -> Vec<u8> {
    parts.concat()
}
fn key(k: &str) -> Vec<u8> {
    let mut v = (k.len() as u16).to_be_bytes().to_vec();
    v.extend_from_slice(k.as_bytes());
    v
}
fn bs(x: &str) -> Vec<u8> {
    cat(&[vec![0x02], key(x)])
}
fn bn(x: f64) -> Vec<u8> {
    cat(&[vec![0x00], x.to_be_bytes().to_vec()])
}
fn end() -> Vec<u8> {
    vec![0x00, 0x00, 0x09]
}
fn s(x: &str) -> Value {
    Value::String(x.to_string())
}
fn pairs(entries: &[(&str, Value)]) -> Vec<Pair<String, Value>> {
    entries
        .iter()
        .map(|e| Pair {
            key: e.0.to_string(),
            value: e.1.clone(),
        })
        .collect()
}
fn decode_bytes(bytes: &[u8]) -> Value {
    Value::read_from(bytes).unwrap()
}

#[test]
fn amf0_decodes_boolean() {
    assert_eq!(decode_bytes(&[0x01, 0x01]), Value::Boolean(true));
    assert_eq!(decode_bytes(&[0x01, 0x00]), Value::Boolean(false));
}
#[test]
fn amf0_decodes_null() {
    assert_eq!(decode_bytes(&[0x05]), Value::Null);
}
#[test]
fn amf0_decodes_undefined() {
    assert_eq!(decode_bytes(&[0x06]), Value::Undefined);
}
#[test]
fn amf0_decodes_number() {
    assert_eq!(decode_bytes(&bn(3.5)), Value::Number(3.5f64.to_bits()));
}
#[test]
fn amf0_decodes_string() {
    assert_eq!(decode_bytes(&bs("this is a テスト")), s("this is a テスト"));
}
#[test]
fn amf0_decodes_long_string() {
    let text: String = std::iter::repeat('a').take(0x10013).collect();
    let bytes = cat(&[vec![0x0C], (text.len() as u32).to_be_bytes().to_vec(), text.as_bytes().to_vec()]);
    assert_eq!(decode_bytes(&bytes), Value::String(text));
}
#[test]
fn amf0_decodes_xml_document() {
    let x = "<parent><child prop=\"test\" /></parent>";
    let bytes = cat(&[vec![0x0F], (x.len() as u32).to_be_bytes().to_vec(), x.as_bytes().to_vec()]);
    assert_eq!(decode_bytes(&bytes), Value::XmlDocument(x.to_string()));
}
#[test]
fn amf0_decodes_object() {
    let bytes = cat(&[vec![0x03], key(""), bs(""), key("foo"), bs("baz"), key("bar"), bn(3.14), end()]);
    assert_eq!(
        decode_bytes(&bytes),
        Value::Object {
            class_name: None,
            entries: pairs(&[("", s("")), ("foo", s("baz")), ("bar", Value::Number(3.14f64.to_bits()))]),
        }
    );
}
#[test]
fn amf0_decodes_typed_object() {
    let bytes = cat(&[vec![0x10], key("org.amf.ASClass"), key("foo"), bs("bar"), key("baz"), vec![0x05], end()]);
    assert_eq!(
        decode_bytes(&bytes),
        Value::Object {
            class_name: Some("org.amf.ASClass".to_string()),
            entries: pairs(&[("foo", s("bar")), ("baz", Value::Null)]),
        }
    );
}
#[test]
fn amf0_decodes_ecma_array() {
    let bytes = cat(&[
        vec![0x08, 0, 0, 0, 4],
        key("0"),
        bs("a"),
        key("1"),
        bs("b"),
        key("2"),
        bs("c"),
        key("3"),
        bs("d"),
        end(),
    ]);
    assert_eq!(
        decode_bytes(&bytes),
        Value::EcmaArray {
            entries: pairs(&[("0", s("a")), ("1", s("b")), ("2", s("c")), ("3", s("d"))]),
        }
    );
}
#[test]
fn amf0_decodes_strict_array() {
    let bytes = cat(&[vec![0x0A, 0, 0, 0, 3], bn(1.0), bs("2"), bn(3.0)]);
    assert_eq!(
        decode_bytes(&bytes),
        Value::Array {
            entries: vec![Value::Number(1.0f64.to_bits()), s("2"), Value::Number(3.0f64.to_bits())],
        }
    );
}
