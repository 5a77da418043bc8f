use pack_stream::{Decoder, UnpackError, Value};

/// Re-encodes a decoded value, choosing the tiny form where the value
/// kind is a tiny variant and the sized form otherwise. Structs pick
/// the tiny form exactly when the field count fits its four bits.
fn encode(v: &Value, out: &mut Vec<u8>) {
    match v {
        Value::Boolean(false) => out.push(0xC2),
        Value::Boolean(true) => out.push(0xC3),
        Value::TinyInt(n) => out.push(*n),
        Value::TinyText(s) => {
            out.push(0x80 + s.len() as u8);
            out.extend_from_slice(s.as_bytes());
        }
        Value::String(s) => {
            out.push(0xD0);
            out.push(s.len() as u8);
            out.extend_from_slice(s.as_bytes());
        }
        Value::Int8(n) => {
            out.push(0xC8);
            out.extend_from_slice(&n.to_be_bytes());
        }
        Value::Int16(n) => {
            out.push(0xC9);
            out.extend_from_slice(&n.to_be_bytes());
        }
        Value::Int32(n) => {
            out.push(0xCA);
            out.extend_from_slice(&n.to_be_bytes());
        }
        Value::Int64(n) => {
            out.push(0xCB);
            out.extend_from_slice(&n.to_be_bytes());
        }
        Value::Float64(bits) => {
            out.push(0xC1);
            out.extend_from_slice(&bits.to_be_bytes());
        }
        Value::TinyList(items) => {
            let mut inner: Vec<u8> = vec![];
            for item in items {
                encode(item, &mut inner);
            }
            out.push(0x90 + inner.len() as u8);
            out.extend_from_slice(&inner);
        }
        Value::List(items) => {
            let mut inner: Vec<u8> = vec![];
            for item in items {
                encode(item, &mut inner);
            }
            out.push(0xD4);
            out.push(inner.len() as u8);
            out.extend_from_slice(&inner);
        }
        Value::TinyMap(pairs) => {
            out.push(0xA0 + pairs.len() as u8);
            for (k, v) in pairs {
                encode(k, out);
                encode(v, out);
            }
        }
        Value::SizedMap(pairs) => {
            out.push(0xD8);
            out.push(pairs.len() as u8);
            for (k, v) in pairs {
                encode(k, out);
                encode(v, out);
            }
        }
        Value::Struct(s) => {
            if s.val.len() <= 0x0F {
                out.push(0xB0 + s.val.len() as u8);
            } else {
                out.push(0xDC);
                out.push(s.val.len() as u8);
            }
            out.push(s.sig);
            for field in s.val.iter() {
                encode(field, out);
            }
        }
        Value::Unreadable => panic!("an unreadable slot has no encoding"),
    }
}

fn decode_all(bytes: Vec<u8>) -> Vec<Value> {
    let mut decoder = Decoder::new(bytes);
    decoder.unpack_all().expect("decoding failed");
    decoder.buffer
}

#[test]
fn every_tiny_int_marker_decodes_to_itself() {
    for m in 0x00u8..=0x7Fu8 {
        let values = decode_all(vec![m]);
        assert_eq!(values.len(), 1);
        match &values[0] {
            Value::TinyInt(n) => assert_eq!(*n, m),
            other => panic!("marker {:#04x} gave {:?}", m, other),
        }
    }
}

#[test]
fn negative_int8_decodes() {
    let values = decode_all(vec![0xC8, 0xFE]);
    assert!(matches!(values[0], Value::Int8(-2)));
}

#[test]
fn negative_int16_decodes() {
    let values = decode_all(vec![0xC9, 0xFF, 0xD6]);
    assert!(matches!(values[0], Value::Int16(-42)));
}

#[test]
fn negative_int32_decodes() {
    let values = decode_all(vec![0xCA, 0xFF, 0xFF, 0xFF, 0xD6]);
    assert!(matches!(values[0], Value::Int32(-42)));
}

#[test]
fn negative_int64_decodes() {
    let values = decode_all(vec![0xCB, 0xFF, 0xFF, 0xFF, 0xFF, 0xFF, 0xFF, 0xFF, 0xD6]);
    assert!(matches!(values[0], Value::Int64(-42)));
}

#[test]
fn tiny_struct_carries_tag_and_fields() {
    let values = decode_all(vec![0xB3, 0x01, 0x01, 0x02, 0x03]);
    assert_eq!(values.len(), 1);
    match &values[0] {
        Value::Struct(s) => {
            assert_eq!(s.sig, 0x01);
            assert_eq!(s.val.len(), 3);
            for (i, field) in s.val.iter().enumerate() {
                match field {
                    Value::TinyInt(n) => assert_eq!(*n as usize, i + 1),
                    other => panic!("field was {:?}", other),
                }
            }
        }
        other => panic!("was not a struct: {:?}", other),
    }
}

#[test]
fn map_keeps_duplicate_keys_in_order() {
    let values = decode_all(vec![0xA2, 0x81, 0x61, 0x01, 0x81, 0x61, 0x02]);
    match &values[0] {
        Value::TinyMap(pairs) => {
            assert_eq!(pairs.len(), 2);
            assert!(matches!(&pairs[0].0, Value::TinyText(k) if k == "a"));
            assert!(matches!(pairs[0].1, Value::TinyInt(1)));
            assert!(matches!(&pairs[1].0, Value::TinyText(k) if k == "a"));
            assert!(matches!(pairs[1].1, Value::TinyInt(2)));
        }
        other => panic!("was not a tiny map: {:?}", other),
    }
}

#[test]
fn concatenated_encodings_decode_in_order() {
    let first = vec![0x85, 0x48, 0x65, 0x6C, 0x6C, 0x6F];
    let second = vec![0xC9, 0x00, 0x2A];
    let mut joined = first.clone();
    joined.extend_from_slice(&second);

    let separate: Vec<Value> = decode_all(first)
        .into_iter()
        .chain(decode_all(second).into_iter())
        .collect();
    let together = decode_all(joined);
    assert_eq!(together.len(), 2);
    assert_eq!(format!("{:?}", separate), format!("{:?}", together));
}

#[test]
fn empty_buffer_next_is_end_of_input() {
    let mut decoder = Decoder::new(vec![]);
    assert_eq!(decoder.unpack_next(), Err(UnpackError::EndOfInput));
    assert!(decoder.buffer.is_empty());
}

#[test]
fn truncated_int16_is_end_of_input() {
    let mut decoder = Decoder::new(vec![0xC9, 0x00]);
    assert_eq!(decoder.unpack_next(), Err(UnpackError::EndOfInput));
    assert!(decoder.buffer.is_empty());
}

#[test]
fn truncated_float64_is_end_of_input() {
    let mut decoder = Decoder::new(vec![0xC1, 0x3F, 0xF1, 0x99, 0x99, 0x99, 0x99, 0x99]);
    assert_eq!(decoder.unpack_next(), Err(UnpackError::EndOfInput));
    assert!(decoder.buffer.is_empty());
}

#[test]
fn truncated_tiny_text_is_end_of_input() {
    let mut decoder = Decoder::new(vec![0x85, 0x48, 0x65, 0x6C, 0x6C]);
    assert_eq!(decoder.unpack_next(), Err(UnpackError::EndOfInput));
    assert!(decoder.buffer.is_empty());
}

#[test]
fn truncated_string_prefix_is_end_of_input() {
    let mut decoder = Decoder::new(vec![0xD0]);
    assert_eq!(decoder.unpack_next(), Err(UnpackError::EndOfInput));
    assert!(decoder.buffer.is_empty());
}

#[test]
fn truncated_string_payload_is_end_of_input() {
    let mut decoder = Decoder::new(vec![0xD0, 0x02, 0x61]);
    assert_eq!(decoder.unpack_next(), Err(UnpackError::EndOfInput));
    assert!(decoder.buffer.is_empty());
}

#[test]
fn truncated_tiny_list_is_end_of_input() {
    let mut decoder = Decoder::new(vec![0x93, 0x01, 0x02]);
    assert_eq!(decoder.unpack_next(), Err(UnpackError::EndOfInput));
    assert!(decoder.buffer.is_empty());
}

#[test]
fn truncated_tiny_map_is_end_of_input() {
    let mut decoder = Decoder::new(vec![0xA1, 0x81, 0x61]);
    assert_eq!(decoder.unpack_next(), Err(UnpackError::EndOfInput));
    assert!(decoder.buffer.is_empty());
}

#[test]
fn truncated_struct_without_tag_is_end_of_input() {
    let mut decoder = Decoder::new(vec![0xB1]);
    assert_eq!(decoder.unpack_next(), Err(UnpackError::EndOfInput));
    assert!(decoder.buffer.is_empty());
}

#[test]
fn truncated_struct_fields_are_end_of_input() {
    let mut decoder = Decoder::new(vec![0xB3, 0x01, 0x01, 0x02]);
    assert_eq!(decoder.unpack_next(), Err(UnpackError::EndOfInput));
    assert!(decoder.buffer.is_empty());
}

#[test]
fn unpack_all_reports_trailing_truncation() {
    let mut decoder = Decoder::new(vec![0x07, 0xC9, 0x00]);
    assert_eq!(decoder.unpack_all(), Err(UnpackError::EndOfInput));
    assert_eq!(decoder.buffer.len(), 1);
    assert!(matches!(decoder.buffer[0], Value::TinyInt(7)));
}

#[test]
fn unknown_marker_yields_unreadable_and_decoding_goes_on() {
    let values = decode_all(vec![0xC0, 0x07]);
    assert_eq!(values.len(), 2);
    assert!(matches!(values[0], Value::Unreadable));
    assert!(matches!(values[1], Value::TinyInt(7)));
}

#[test]
fn invalid_utf8_yields_unreadable_and_consumes_payload() {
    let values = decode_all(vec![0x82, 0xFF, 0x41, 0x05]);
    assert_eq!(values.len(), 2);
    assert!(matches!(values[0], Value::Unreadable));
    assert!(matches!(values[1], Value::TinyInt(5)));
}

#[test]
fn round_trip_reencodes_fixed_vectors() {
    let vectors: Vec<Vec<u8>> = vec![
        vec![0x00],
        vec![0x2A],
        vec![0x7F],
        vec![0xC2],
        vec![0xC3],
        vec![0x85, 0x48, 0x65, 0x6C, 0x6C, 0x6F],
        vec![0xC8, 0xFE],
        vec![0xC9, 0x00, 0x2A],
        vec![0xCA, 0x00, 0x00, 0x00, 0x2A],
        vec![0xCB, 0x00, 0x00, 0x00, 0x00, 0x00, 0x00, 0x00, 0x2A],
        vec![0xC1, 0x3F, 0xF1, 0x99, 0x99, 0x99, 0x99, 0x99, 0x9A],
        vec![0xC1, 0xBF, 0xF1, 0x99, 0x99, 0x99, 0x99, 0x99, 0x9A],
        vec![0x93, 0x01, 0x02, 0x03],
        vec![0xA1, 0x81, 0x61, 0x01],
        vec![0xB3, 0x01, 0x01, 0x02, 0x03],
        vec![
            0xD0, 0x1A, 0x61, 0x62, 0x63, 0x64, 0x65, 0x66, 0x67, 0x68, 0x69, 0x6A, 0x6B, 0x6C,
            0x6D, 0x6F, 0x6E, 0x70, 0x71, 0x72, 0x73, 0x74, 0x75, 0x76, 0x77, 0x78, 0x79, 0x7A,
        ],
        vec![
            0xD4, 0x14, 0x01, 0x02, 0x03, 0x04, 0x05, 0x06, 0x07, 0x08, 0x09, 0x00, 0x01, 0x02,
            0x03, 0x04, 0x05, 0x06, 0x07, 0x08, 0x09, 0x00,
        ],
        vec![
            0xDC, 0x10, 0x01, 0x01, 0x02, 0x03, 0x04, 0x05, 0x06, 0x07, 0x08, 0x09, 0x00, 0x01,
            0x02, 0x03, 0x04, 0x05, 0x06,
        ],
    ];
    for bytes in vectors {
        let values = decode_all(bytes.clone());
        let mut reencoded: Vec<u8> = vec![];
        for v in &values {
            encode(v, &mut reencoded);
        }
        assert_eq!(bytes, reencoded);
    }
}
