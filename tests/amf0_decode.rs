use amf::amf0::Value;
use amf::amf3;
use amf::error::DecodeError;
use amf::Pair;

fn s(s: &str) -> Value {
    Value::String(s.to_string())
}
fn n(n: f64) -> Value {
    Value::Number(n.to_bits())
}
fn es(entries: &[(&str, Value)]) -> Vec<Pair<String, Value>> {
    entries
        .iter()
        .map(|e| Pair {
            key: e.0.to_string(),
            value: e.1.clone(),
        })
        .collect()
}
fn obj(name: Option<&str>, entries: &[(&str, Value)]) -> Value {
    Value::Object {
        class_name: name.map(|s| s.to_string()),
        entries: es(entries),
    }
}

// Byte builders for the AMF0 wire format.
fn cat(parts: &[Vec<u8>]) -> Vec<u8> {
    parts.concat()
}
fn key(k: &str) -> Vec<u8> {
    let mut v = (k.len() as u16).to_be_bytes().to_vec();
    v.extend_from_slice(k.as_bytes());
    v
}
fn bs(x: &str) -> Vec<u8> {
    cat(&[vec![0x02], key(x)])
}
fn bn(x: f64) -> Vec<u8> {
    cat(&[vec![0x00], x.to_be_bytes().to_vec()])
}
fn end() -> Vec<u8> {
    vec![0x00, 0x00, 0x09]
}
fn bdate(millis: f64, tz: i16) -> Vec<u8> {
    cat(&[vec![0x0B], millis.to_be_bytes().to_vec(), tz.to_be_bytes().to_vec()])
}
fn long_str(x: &str) -> Vec<u8> {
    cat(&[vec![0x0C], (x.len() as u32).to_be_bytes().to_vec(), x.as_bytes().to_vec()])
}
fn xml(x: &str) -> Vec<u8> {
    cat(&[vec![0x0F], (x.len() as u32).to_be_bytes().to_vec(), x.as_bytes().to_vec()])
}

pub fn sample_object() -> Vec<u8> {
    cat(&[vec![0x03], key(""), bs(""), key("foo"), bs("baz"), key("bar"), bn(3.14), end()])
}
pub fn sample_untyped_object() -> Vec<u8> {
    cat(&[vec![0x03], key("foo"), bs("bar"), key("baz"), vec![0x05], end()])
}
pub fn sample_typed_object() -> Vec<u8> {
    cat(&[vec![0x10], key("org.amf.ASClass"), key("foo"), bs("bar"), key("baz"), vec![0x05], end()])
}
pub fn sample_complex_encoded_string() -> Vec<u8> {
    cat(&[
        vec![0x03],
        key("utf"),
        bs("UTF テスト"),
        key("zed"),
        bn(5.0),
        key("shift"),
        bs("Shift テスト"),
        end(),
    ])
}
pub fn sample_ecma_array() -> Vec<u8> {
    cat(&[
        vec![0x08, 0, 0, 0, 4],
        key("0"),
        bs("a"),
        key("1"),
        bs("b"),
        key("2"),
        bs("c"),
        key("3"),
        bs("d"),
        end(),
    ])
}
pub fn sample_strict_array() -> Vec<u8> {
    cat(&[vec![0x0A, 0, 0, 0, 3], bn(1.0), bs("2"), bn(3.0)])
}
pub fn sample_avmplus() -> Vec<u8> {
    vec![0x11, 0x09, 0x07, 0x01, 0x04, 0x01, 0x04, 0x02, 0x04, 0x03]
}

fn decode(bytes: &[u8]) -> Result<Value, DecodeError> {
    Value::read_from(bytes)
}
fn decode_eq(bytes: &[u8], expected: Value) {
    assert_eq!(decode(bytes).unwrap(), expected);
}
fn decode_unexpected_eof(bytes: &[u8]) {
    match decode(bytes) {
        Err(DecodeError::UnexpectedEof) => {}
        other => panic!("expected the end of the input, got {:?}", other),
    }
}
fn drop_last(bytes: &[u8]) -> Vec<u8> {
    bytes[..bytes.len() - 1].to_vec()
}

#[test]
fn decode_decodes_boolean() {
    decode_eq(&[0x01, 0x01], Value::Boolean(true));
    decode_eq(&[0x01, 0x00], Value::Boolean(false));
    decode_unexpected_eof(&[0x01]);
}
#[test]
fn decode_decodes_null() {
    decode_eq(&[0x05], Value::Null);
}
#[test]
fn decode_decodes_undefined() {
    decode_eq(&[0x06], Value::Undefined);
}
#[test]
fn decode_decodes_number() {
    decode_eq(&bn(3.5), n(3.5));
    decode_eq(&bn(f64::INFINITY), n(f64::INFINITY));
    decode_eq(&bn(f64::NEG_INFINITY), n(f64::NEG_INFINITY));
    let is_nan = |v| {
        if let Value::Number(x) = v {
            f64::from_bits(x).is_nan()
        } else {
            false
        }
    };
    assert!(is_nan(decode(&[0x00, 0x7F, 0xF8, 0, 0, 0, 0, 0, 0]).unwrap()));
    assert!(is_nan(decode(&[0x00, 0x7F, 0xF0, 0, 0, 0, 0, 0, 1]).unwrap()));
    decode_unexpected_eof(&[0x00, 0x40, 0x0C, 0x00]);
}
#[test]
fn decode_decodes_string() {
    decode_eq(&bs("this is a テスト"), Value::String("this is a テスト".to_string()));
    decode_eq(
        &sample_complex_encoded_string(),
        obj(
            None,
            &[("utf", s("UTF テスト")), ("zed", n(5.0)), ("shift", s("Shift テスト"))][..],
        ),
    );
    decode_unexpected_eof(&drop_last(&bs("this is a テスト")));
}
#[test]
fn decode_decodes_long_string() {
    let text: String = std::iter::repeat('a').take(0x10013).collect();
    decode_eq(&long_str(&text), Value::String(text.clone()));
    decode_unexpected_eof(&drop_last(&long_str(&text)));
}
#[test]
fn decode_decodes_xml_document() {
    let x = "<parent><child prop=\"test\" /></parent>";
    decode_eq(&xml(x), Value::XmlDocument(x.to_string()));
    decode_unexpected_eof(&drop_last(&xml(x)));
}
#[test]
fn decode_decodes_object() {
    decode_eq(
        &sample_object(),
        obj(None, &[("", s("")), ("foo", s("baz")), ("bar", n(3.14))][..]),
    );
    decode_eq(
        &sample_untyped_object(),
        obj(None, &[("foo", s("bar")), ("baz", Value::Null)][..]),
    );
    let bad_end = cat(&[vec![0x03], key("foo"), vec![0x09]]);
    assert_eq!(decode(&bad_end), Err(DecodeError::UnexpectedObjectEnd));
    decode_unexpected_eof(&drop_last(&sample_untyped_object()));
}
#[test]
fn decode_decodes_typed_object() {
    decode_eq(
        &sample_typed_object(),
        obj(Some("org.amf.ASClass"), &[("foo", s("bar")), ("baz", Value::Null)]),
    );
    decode_unexpected_eof(&drop_last(&sample_typed_object()));
}
#[test]
fn decodes_unsupported() {
    assert_eq!(decode(&[0x04]), Err(DecodeError::Unsupported { marker: 0x04 }));
    assert_eq!(decode(&[0x0E]), Err(DecodeError::Unsupported { marker: 0x0E }));
    assert_eq!(decode(&[0x0D]), Err(DecodeError::Unsupported { marker: 0x0D }));
}
#[test]
fn decode_decodes_ecma_array() {
    let entries = es(&[("0", s("a")), ("1", s("b")), ("2", s("c")), ("3", s("d"))][..]);
    decode_eq(&sample_ecma_array(), Value::EcmaArray { entries: entries });
    decode_unexpected_eof(&drop_last(&sample_ecma_array()));

    let entries = es(&[("c", s("d")), ("a", s("b"))][..]);
    let hash = cat(&[vec![0x08, 0, 0, 0, 2], key("c"), bs("d"), key("a"), bs("b"), end()]);
    decode_eq(&hash, Value::EcmaArray { entries: entries });
}
#[test]
fn decode_decodes_strict_array() {
    decode_eq(
        &sample_strict_array(),
        Value::Array {
            entries: vec![n(1.0), s("2"), n(3.0)],
        },
    );
    decode_unexpected_eof(&drop_last(&sample_strict_array()));
}
#[test]
fn decodes_reference() {
    let object = obj(None, &[("foo", s("baz")), ("bar", n(3.14))][..]);
    let expected = obj(None, &[("0", object.clone()), ("1", object)][..]);
    let inner = cat(&[vec![0x03], key("foo"), bs("baz"), key("bar"), bn(3.14), end()]);
    let bytes = cat(&[vec![0x03], key("0"), inner, key("1"), vec![0x07, 0x00, 0x01], end()]);
    decode_eq(&bytes, expected);
    decode_unexpected_eof(&[0x07, 0x00]);

    assert_eq!(
        decode(&[0x07, 0x00, 0x00]),
        Err(DecodeError::OutOfRangeReference { index: 0 })
    );
    let circular = cat(&[vec![0x03], key("a"), vec![0x07, 0x00, 0x00], end()]);
    assert_eq!(
        decode(&circular),
        Err(DecodeError::CircularReference { index: 0 })
    );
}
#[test]
fn decode_decodes_date() {
    decode_eq(
        &bdate(1_590_796_800_000.0, 0),
        Value::Date {
            unix_time: 1_590_796_800_000,
        },
    );
    decode_eq(
        &bdate(1_045_112_400_000.0, 0),
        Value::Date {
            unix_time: 1_045_112_400_000,
        },
    );
    decode_unexpected_eof(&drop_last(&bdate(1_590_796_800_000.0, 0)));
    assert_eq!(
        decode(&bdate(-1.0, 0)),
        Err(DecodeError::InvalidDate {
            millis: (-1.0f64).to_bits()
        })
    );
    assert_eq!(
        decode(&bdate(f64::INFINITY, 0)),
        Err(DecodeError::InvalidDate {
            millis: f64::INFINITY.to_bits()
        })
    );
}
#[test]
fn decodes_avmplus() {
    let expected = amf3::Value::Array {
        assoc_entries: vec![],
        dense_entries: (1..4).map(amf3::Value::Integer).collect(),
    };
    decode_eq(&sample_avmplus(), Value::AvmPlus(expected));
}
#[test]
fn decode_other_errors() {
    decode_unexpected_eof(&[]);
    assert_eq!(decode(&[0x61]), Err(DecodeError::Unknown { marker: 97 }));
}

#[test]
fn date_with_time_zone_is_rejected() {
    assert_eq!(
        decode(&bdate(1_045_112_400_000.0, 60)),
        Err(DecodeError::NonZeroTimeZone { offset: 60 })
    );
    assert_eq!(
        decode(&bdate(0.0, -1)),
        Err(DecodeError::NonZeroTimeZone { offset: -1 })
    );
}
#[test]
fn nan_date_is_invalid() {
    assert!(matches!(decode(&bdate(f64::NAN, 0)), Err(DecodeError::InvalidDate { .. })));
}
#[test]
fn invalid_utf8_is_an_error() {
    assert_eq!(decode(&[0x02, 0x00, 0x02, 0xC3, 0x28]), Err(DecodeError::String));
}
#[test]
fn every_truncated_sample_ends_early() {
    let samples = vec![
        sample_object(),
        sample_untyped_object(),
        sample_typed_object(),
        sample_complex_encoded_string(),
        sample_ecma_array(),
        sample_strict_array(),
        sample_avmplus(),
        bdate(1_045_112_400_000.0, 0),
        bn(3.5),
        bs("abc"),
        vec![0x01, 0x01],
    ];
    for sample in samples {
        decode_unexpected_eof(&drop_last(&sample));
    }
}
#[test]
fn fractional_date_is_truncated_to_milliseconds() {
    decode_eq(&bdate(1.75, 0), Value::Date { unix_time: 1 });
    decode_eq(&bdate(0.5, 0), Value::Date { unix_time: 0 });
}
