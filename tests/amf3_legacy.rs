use amf::amf3::Value;

fn decode_bytes(bytes: &[u8]) -> Value {
    Value::read_from(bytes).unwrap()
}

#[test]
fn amf3_decodes_undefined() {
    assert_eq!(decode_bytes(&[0x00]), Value::Undefined);
}
#[test]
fn amf3_decodes_null() {
    assert_eq!(decode_bytes(&[0x01]), Value::Null);
}
#[test]
fn decodes_true() {
    assert_eq!(decode_bytes(&[0x03]), Value::Boolean(true));
}
#[test]
fn decodes_false() {
    assert_eq!(decode_bytes(&[0x02]), Value::Boolean(false));
}
#[test]
fn decodes_float() {
    let mut bytes = vec![0x05];
    bytes.extend_from_slice(&3.5f64.to_be_bytes());
    assert_eq!(decode_bytes(&bytes), Value::Double(3.5f64.to_bits()));
}
