use amf::amf0::{Decoder, Value};
use amf::amf3;
use amf::error::DecodeError;
use amf::{Pair, Version};

#[test]
fn decoder_reads_values_in_turn() {
    let bytes = vec![0x05, 0x01, 0x01, 0x06, 0xAB];
    let mut decoder = Decoder::new(bytes);
    assert_eq!(decoder.decode().unwrap(), Value::Null);
    assert_eq!(decoder.decode().unwrap(), Value::Boolean(true));
    assert_eq!(decoder.decode().unwrap(), Value::Undefined);
    assert_eq!(decoder.into_inner(), vec![0xAB]);
}
#[test]
fn tables_restart_at_each_decode() {
    // An object {a: null}, then a reference to index 0 in a second value.
    let bytes = vec![0x03, 0x00, 0x01, 0x61, 0x05, 0x00, 0x00, 0x09, 0x07, 0x00, 0x00];
    let mut decoder = Decoder::new(bytes);
    let object = Value::Object {
        class_name: None,
        entries: vec![Pair { key: "a".to_string(), value: Value::Null }],
    };
    assert_eq!(decoder.decode().unwrap(), object);
    assert_eq!(decoder.decode(), Err(DecodeError::OutOfRangeReference { index: 0 }));
    decoder.clear_reference_table();
    assert_eq!(decoder.decode(), Err(DecodeError::OutOfRangeReference { index: 0 }));
}
#[test]
fn strict_arrays_take_no_table_slot() {
    let bytes = [0x0A, 0x00, 0x00, 0x00, 0x01, 0x07, 0x00, 0x00];
    assert_eq!(Value::read_from(&bytes), Err(DecodeError::OutOfRangeReference { index: 0 }));
    // Inside an object, index 0 is the object itself, still being decoded.
    let nested = [0x03, 0x00, 0x01, 0x61, 0x0A, 0x00, 0x00, 0x00, 0x01, 0x07, 0x00, 0x00, 0x00, 0x00, 0x09];
    assert_eq!(Value::read_from(&nested), Err(DecodeError::CircularReference { index: 0 }));
}
#[test]
fn try_as_str_reads_text() {
    assert_eq!(Value::String("a".to_string()).try_as_str(), Some("a"));
    assert_eq!(Value::XmlDocument("<a/>".to_string()).try_as_str(), Some("<a/>"));
    assert_eq!(Value::AvmPlus(amf3::Value::Xml("x".to_string())).try_as_str(), Some("x"));
    assert_eq!(Value::Null.try_as_str(), None);
}
#[test]
fn try_into_values_and_pairs() {
    let array = Value::Array { entries: vec![Value::Null] };
    assert_eq!(array.try_into_values().unwrap(), vec![Value::Null]);
    let ecma = Value::EcmaArray { entries: vec![Pair { key: "k".to_string(), value: Value::Undefined }] };
    let pairs = ecma.try_into_pairs().unwrap();
    assert_eq!(pairs[0].key, "k");
    assert_eq!(Value::Null.try_into_values(), Err(Value::Null));
}
#[test]
fn version_dispatch() {
    let v = amf::Value::read_from(&[0x05], Version::Amf0).unwrap();
    assert_eq!(v, amf::Value::Amf0(Value::Null));
    let v = amf::Value::read_from(&[0x01], Version::Amf3).unwrap();
    assert_eq!(v, amf::Value::Amf3(amf3::Value::Null));
    let number = amf::Value::from(Value::Number(1.23f64.to_bits()));
    let mut buf = Vec::new();
    number.write_to(&mut buf).unwrap();
    assert_eq!(amf::Value::read_from(&buf, Version::Amf0).unwrap(), number);
    assert_eq!(amf::Value::from(amf3::Value::String("s".to_string())).try_as_str(), Some("s"));
    let values = amf::Value::Amf0(Value::AvmPlus(amf3::Value::IntVector { is_fixed: false, entries: vec![7] }))
        .try_into_values()
        .unwrap();
    assert_eq!(values, vec![amf::Value::Amf3(amf3::Value::Integer(7))]);
}
