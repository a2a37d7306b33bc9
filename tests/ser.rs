use serde_ubj::{to_vec, Payload, UbjError, Value};

fn s(x: &str) -> String {
    String::from(x)
}

fn assert_serialize_ok(value: Value, expected: &[u8]) {
    let result = to_vec(&value);
    assert!(result.is_ok());
    assert_eq!(result.unwrap().as_slice(), expected);
}

fn map_with_key(key: Value) -> Value {
    Value::Mapping(vec![(key, Value::Str(s("value")))])
}

fn illegal_key_kind(key: Value) -> &'static str {
    match to_vec(&map_with_key(key)) {
        Err(UbjError::IllegalKeyType(kind)) => kind,
        other => panic!("expected an illegal key, got {:?}", other),
    }
}

fn fields_struct(x: i8, y: bool, z: &str) -> Vec<(String, Value)> {
    vec![(s("x"), Value::I8(x)), (s("y"), Value::Bool(y)), (s("z"), Value::Str(s(z)))]
}

/// A text of exactly `byte_count` UTF-8 bytes mixing 1-, 2-, 3- and 4-byte
/// characters, with its expected encoding as a string value.
pub fn generate(byte_count: usize) -> (String, Vec<u8>) {
    let chars_1byte = ['a', 'b', 'c', 'd', 'e', 'f', 'g', 'h', 'i', 'j'];
    let chars_2byte = ['\u{e1}', '\u{e9}', '\u{f1}', '\u{fc}', '\u{f8}', '\u{107}', '\u{17e}', '\u{142}', '\u{15f}', '\u{11f}'];
    let chars_3byte = ['\u{4e2d}', '\u{65e5}', '\u{d55c}', '\u{8a9e}', '\u{6587}', '\u{5b57}', '\u{672c}', '\u{56fd}', '\u{8a9e}', '\u{8a00}'];
    let chars_4byte = ['\u{1f600}', '\u{1f30d}', '\u{1f680}', '\u{1f3a8}', '\u{1f525}', '\u{1f4bb}', '\u{1f3b5}', '\u{1f31f}', '\u{1f4a1}', '\u{1f3af}'];
    let mut string = String::new();
    let mut bytes_added = 0;
    let mut idx = 0;
    while bytes_added < byte_count {
        let remaining = byte_count - bytes_added;
        let ch = match (remaining, idx % 4) {
            (1, _) => chars_1byte[idx % 10],
            (2, _) => chars_2byte[idx % 10],
            (3, _) => chars_3byte[idx % 10],
            (_, 0) if remaining >= 4 => chars_4byte[idx % 10],
            (_, 1) if remaining >= 3 => chars_3byte[idx % 10],
            (_, 2) if remaining >= 2 => chars_2byte[idx % 10],
            _ => chars_1byte[idx % 10],
        };
        string.push(ch);
        bytes_added += ch.len_utf8();
        idx += 1;
    }
    let bytes = string.as_bytes();
    let len = bytes.len();
    let mut expected = vec![0x53];
    if len <= u8::MAX as usize {
        expected.push(0x55);
        expected.push(len as u8);
    } else if len <= i16::MAX as usize {
        expected.push(0x49);
        expected.extend_from_slice(&(len as i16).to_be_bytes());
    } else if len <= i32::MAX as usize {
        expected.push(0x6C);
        expected.extend_from_slice(&(len as i32).to_be_bytes());
    } else {
        expected.push(0x4C);
        expected.extend_from_slice(&(len as i64).to_be_bytes());
    }
    expected.extend_from_slice(bytes);
    (string, expected)
}

#[test]
fn serialize_unit() {
    assert_serialize_ok(Value::Unit, &[0x5A]);
}

#[test]
fn serialize_bool() {
    assert_serialize_ok(Value::Bool(true), &[0x54]);
    assert_serialize_ok(Value::Bool(false), &[0x46]);
}

#[test]
fn serialize_i8() {
    assert_serialize_ok(Value::I8(-123), &[0x69, 0x85]);
    assert_serialize_ok(Value::I8(123), &[0x69, 0x7B]);
}

#[test]
fn serialize_u8() {
    assert_serialize_ok(Value::U8(123), &[0x55, 0x7B]);
    assert_serialize_ok(Value::U8(254), &[0x55, 0xFE]);
}

#[test]
fn serialize_i16() {
    assert_serialize_ok(Value::I16(-32700), &[0x49, 0x80, 0x44]);
    assert_serialize_ok(Value::I16(-123), &[0x69, 0x85]);
    assert_serialize_ok(Value::I16(123), &[0x55, 0x7B]);
    assert_serialize_ok(Value::I16(254), &[0x55, 0xFE]);
    assert_serialize_ok(Value::I16(32700), &[0x49, 0x7F, 0xBC]);
}

#[test]
fn serialize_u16() {
    assert_serialize_ok(Value::U16(123), &[0x55, 0x7B]);
    assert_serialize_ok(Value::U16(254), &[0x55, 0xFE]);
    assert_serialize_ok(Value::U16(32700), &[0x49, 0x7F, 0xBC]);
    assert_serialize_ok(Value::U16(65000), &[0x6C, 0x00, 0x00, 0xFD, 0xE8]);
}

#[test]
fn serialize_i32() {
    assert_serialize_ok(Value::I32(-1247483648), &[0x6C, 0xB5, 0xA4, 0xE9, 0x00]);
    assert_serialize_ok(Value::I32(-65000), &[0x6C, 0xFF, 0xFF, 0x02, 0x18]);
    assert_serialize_ok(Value::I32(-32700), &[0x49, 0x80, 0x44]);
    assert_serialize_ok(Value::I32(-123), &[0x69, 0x85]);
    assert_serialize_ok(Value::I32(123), &[0x55, 0x7B]);
    assert_serialize_ok(Value::I32(254), &[0x55, 0xFE]);
    assert_serialize_ok(Value::I32(32700), &[0x49, 0x7F, 0xBC]);
    assert_serialize_ok(Value::I32(65000), &[0x6C, 0x00, 0x00, 0xFD, 0xE8]);
    assert_serialize_ok(Value::I32(1247483648), &[0x6C, 0x4A, 0x5B, 0x17, 0x00]);
}

#[test]
fn serialize_u32() {
    assert_serialize_ok(Value::U32(123), &[0x55, 0x7B]);
    assert_serialize_ok(Value::U32(254), &[0x55, 0xFE]);
    assert_serialize_ok(Value::U32(32700), &[0x49, 0x7F, 0xBC]);
    assert_serialize_ok(Value::U32(65000), &[0x6C, 0x00, 0x00, 0xFD, 0xE8]);
    assert_serialize_ok(Value::U32(1247483648), &[0x6C, 0x4A, 0x5B, 0x17, 0x00]);
    assert_serialize_ok(Value::U32(4294967290), &[0x4C, 0x00, 0x00, 0x00, 0x00, 0xFF, 0xFF, 0xFF, 0xFA]);
}

#[test]
fn serialize_i64() {
    assert_serialize_ok(Value::I64(-922337203685477), &[0x4C, 0xFF, 0xFC, 0xB9, 0x23, 0xA2, 0x9C, 0x77, 0x9B]);
    assert_serialize_ok(Value::I64(-4294967290), &[0x4C, 0xFF, 0xFF, 0xFF, 0xFF, 0x00, 0x00, 0x00, 0x06]);
    assert_serialize_ok(Value::I64(-1247483648), &[0x6C, 0xB5, 0xA4, 0xE9, 0x00]);
    assert_serialize_ok(Value::I64(-65000), &[0x6C, 0xFF, 0xFF, 0x02, 0x18]);
    assert_serialize_ok(Value::I64(-32700), &[0x49, 0x80, 0x44]);
    assert_serialize_ok(Value::I64(-123), &[0x69, 0x85]);
    assert_serialize_ok(Value::I64(123), &[0x55, 0x7B]);
    assert_serialize_ok(Value::I64(254), &[0x55, 0xFE]);
    assert_serialize_ok(Value::I64(32700), &[0x49, 0x7F, 0xBC]);
    assert_serialize_ok(Value::I64(65000), &[0x6C, 0x00, 0x00, 0xFD, 0xE8]);
    assert_serialize_ok(Value::I64(1247483648), &[0x6C, 0x4A, 0x5B, 0x17, 0x00]);
    assert_serialize_ok(Value::I64(4294967290), &[0x4C, 0x00, 0x00, 0x00, 0x00, 0xFF, 0xFF, 0xFF, 0xFA]);
    assert_serialize_ok(Value::I64(922337203685477), &[0x4C, 0x00, 0x03, 0x46, 0xDC, 0x5D, 0x63, 0x88, 0x65]);
}

#[test]
fn serialize_u64() {
    assert_serialize_ok(Value::U64(922337203685477), &[0x4C, 0x00, 0x03, 0x46, 0xDC, 0x5D, 0x63, 0x88, 0x65]);
    assert!(matches!(
        to_vec(&Value::U64(u64::MAX)),
        Err(UbjError::Unsupported("Rust u64 values greater than i64::MAX"))
    ));
}

#[test]
fn serialize_i128() {
    assert!(matches!(to_vec(&Value::I128(i128::MAX)), Err(UbjError::Unsupported("Rust i128 values"))));
}

#[test]
fn serialize_u128() {
    assert!(matches!(to_vec(&Value::U128(u128::MAX)), Err(UbjError::Unsupported("Rust u128 values"))));
}

#[test]
fn serialize_float_f32() {
    assert_serialize_ok(Value::F32(0.15625_f32.to_bits()), &[0x64, 0x3E, 0x20, 0x00, 0x00]);
}

#[test]
fn serialize_float_f64() {
    assert_serialize_ok(
        Value::F64(1.23456789_f64.to_bits()),
        &[0x44, 0x3F, 0xF3, 0xC0, 0xCA, 0x42, 0x83, 0xDE, 0x1B],
    );
}

#[test]
fn serialize_char_ok() {
    assert_serialize_ok(Value::Char('H'), &[0x43, 0x48]);
    assert!(matches!(to_vec(&Value::Char('\u{fc}')), Err(UbjError::CharNotAscii(0xFC))));
}

#[test]
fn serialize_string_45_bytes_long() {
    let (text, ubj) = generate(45);
    assert_eq!(ubj[1], 0x55);
    assert_serialize_ok(Value::Str(text), ubj.as_slice());
}

#[test]
fn serialize_string_230_bytes_long() {
    let (text, ubj) = generate(230);
    assert_eq!(ubj[1], 0x55);
    assert_serialize_ok(Value::Str(text), ubj.as_slice());
}

#[test]
fn serialize_string_15300_bytes_long() {
    let (text, ubj) = generate(15300);
    assert_eq!(ubj[1], 0x49);
    assert_serialize_ok(Value::Str(text), ubj.as_slice());
}

#[test]
fn serialize_string_7483648_bytes_long() {
    let (text, ubj) = generate(7483648);
    assert_eq!(ubj[1], 0x6C);
    assert_serialize_ok(Value::Str(text), ubj.as_slice());
}

#[test]
fn serialize_none() {
    assert_serialize_ok(Value::Absent, &[0x5A]);
}

#[test]
fn serialize_some_bool() {
    assert_serialize_ok(Value::Present(Box::new(Value::Bool(true))), &[0x54]);
    assert_serialize_ok(Value::Present(Box::new(Value::Bool(false))), &[0x46]);
}

#[test]
fn serialize_some_i8() {
    assert_serialize_ok(Value::Present(Box::new(Value::I8(-123))), &[0x69, 0x85]);
    assert_serialize_ok(Value::Present(Box::new(Value::I8(123))), &[0x69, 0x7B]);
}

#[test]
fn serialize_vector() {
    assert_serialize_ok(
        Value::Sequence(vec![Value::I8(12), Value::I8(64), Value::I8(123)]),
        &[0x5B, 0x69, 0x0C, 0x69, 0x40, 0x69, 0x7B, 0x5D],
    );
}

#[test]
fn serialize_array() {
    assert_serialize_ok(
        Value::Tuple(vec![Value::I8(12), Value::I8(64), Value::I8(123)]),
        &[0x5B, 0x69, 0x0C, 0x69, 0x40, 0x69, 0x7B, 0x5D],
    );
}

#[test]
fn serialize_tuple() {
    assert_serialize_ok(
        Value::Tuple(vec![Value::I8(12), Value::I8(64), Value::I8(123)]),
        &[0x5B, 0x69, 0x0C, 0x69, 0x40, 0x69, 0x7B, 0x5D],
    );
}

#[test]
fn serialize_unit_struct() {
    assert_serialize_ok(Value::UnitStruct, &[0x5A]);
}

#[test]
fn serialize_newtype_struct() {
    assert_serialize_ok(Value::NewtypeStruct(Box::new(Value::I8(123))), &[0x69, 0x7B]);
}

#[test]
fn serialize_tuple_struct() {
    assert_serialize_ok(
        Value::TupleStruct(vec![Value::I8(123), Value::I16(32700), Value::I32(1247483648)]),
        &[0x5B, 0x69, 0x7B, 0x49, 0x7F, 0xBC, 0x6C, 0x4A, 0x5B, 0x17, 0x00, 0x5D],
    );
}

#[test]
fn serialize_struct() {
    assert_serialize_ok(
        Value::Record(fields_struct(123, false, "value")),
        &[
            0x7B, 0x55, 0x01, 0x78, 0x69, 0x7B, 0x55, 0x01, 0x79, 0x46, 0x55, 0x01, 0x7A, 0x53, 0x55,
            0x05, 0x76, 0x61, 0x6C, 0x75, 0x65, 0x7D,
        ],
    );
}

#[test]
fn serialize_unit_variant() {
    assert_serialize_ok(
        Value::Union(s("MyUnitVariant"), Payload::Unit),
        &[
            0x7B, 0x55, 0x0D, 0x4D, 0x79, 0x55, 0x6E, 0x69, 0x74, 0x56, 0x61, 0x72, 0x69, 0x61, 0x6E,
            0x74, 0x5A, 0x7D,
        ],
    );
}

#[test]
fn serialize_newtype_variant() {
    assert_serialize_ok(
        Value::Union(s("MyNewtypeVariant"), Payload::Newtype(Box::new(Value::Str(s("value"))))),
        &[
            0x7B, 0x55, 0x10, 0x4D, 0x79, 0x4E, 0x65, 0x77, 0x74, 0x79, 0x70, 0x65, 0x56, 0x61, 0x72,
            0x69, 0x61, 0x6E, 0x74, 0x53, 0x55, 0x05, 0x76, 0x61, 0x6C, 0x75, 0x65, 0x7D,
        ],
    );
}

#[test]
fn serialize_tuple_variant() {
    assert_serialize_ok(
        Value::Union(
            s("MyTupleVariant"),
            Payload::Tuple(vec![Value::I8(123), Value::I16(32700), Value::I32(1247483648)]),
        ),
        &[
            0x7B, 0x55, 0x0E, 0x4D, 0x79, 0x54, 0x75, 0x70, 0x6C, 0x65, 0x56, 0x61, 0x72, 0x69, 0x61,
            0x6E, 0x74, 0x5B, 0x69, 0x7B, 0x49, 0x7F, 0xBC, 0x6C, 0x4A, 0x5B, 0x17, 0x00, 0x5D, 0x7D,
        ],
    );
}

#[test]
fn serialize_struct_variant() {
    assert_serialize_ok(
        Value::Union(s("MyStructVariant"), Payload::Struct(fields_struct(123, false, "value"))),
        &[
            0x7B, 0x55, 0x0F, 0x4D, 0x79, 0x53, 0x74, 0x72, 0x75, 0x63, 0x74, 0x56, 0x61, 0x72, 0x69,
            0x61, 0x6E, 0x74, 0x7B, 0x55, 0x01, 0x78, 0x69, 0x7B, 0x55, 0x01, 0x79, 0x46, 0x55, 0x01,
            0x7A, 0x53, 0x55, 0x05, 0x76, 0x61, 0x6C, 0x75, 0x65, 0x7D, 0x7D,
        ],
    );
}

#[test]
fn serialize_map_key_str() {
    assert_serialize_ok(
        Value::Mapping(vec![
            (Value::Str(s("key1")), Value::I8(123)),
            (Value::Str(s("key2")), Value::I8(45)),
        ]),
        &[
            0x7B, 0x55, 0x04, 0x6B, 0x65, 0x79, 0x31, 0x69, 0x7B, 0x55, 0x04, 0x6B, 0x65, 0x79, 0x32,
            0x69, 0x2D, 0x7D,
        ],
    );
}

#[test]
fn serialize_map_key_err_bool() {
    assert_eq!(illegal_key_kind(Value::Bool(true)), "bool");
}

#[test]
fn serialize_map_key_err_i8() {
    assert_eq!(illegal_key_kind(Value::I8(1)), "i8");
}

#[test]
fn serialize_map_key_err_i16() {
    assert_eq!(illegal_key_kind(Value::I16(1)), "i16");
}

#[test]
fn serialize_map_key_err_i32() {
    assert_eq!(illegal_key_kind(Value::I32(1)), "i32");
}

#[test]
fn serialize_map_key_err_i64() {
    assert_eq!(illegal_key_kind(Value::I64(1)), "i64");
}

#[test]
fn serialize_map_key_err_u8() {
    assert_eq!(illegal_key_kind(Value::U8(1)), "u8");
}

#[test]
fn serialize_map_key_err_u16() {
    assert_eq!(illegal_key_kind(Value::U16(1)), "u16");
}

#[test]
fn serialize_map_key_err_u32() {
    assert_eq!(illegal_key_kind(Value::U32(1)), "u32");
}

#[test]
fn serialize_map_key_err_u64() {
    assert_eq!(illegal_key_kind(Value::U64(1)), "u64");
}

#[test]
fn serialize_map_key_err_char() {
    assert_eq!(illegal_key_kind(Value::Char('c')), "char");
}

#[test]
fn serialize_map_key_err_bytes() {
    assert_eq!(illegal_key_kind(Value::Bytes(vec![0x00, 0x00, 0x00, 0x00])), "&[u8]");
}

#[test]
fn serialize_map_key_err_none() {
    assert_eq!(illegal_key_kind(Value::Absent), "None");
}

#[test]
fn serialize_map_key_some_str() {
    assert_serialize_ok(
        Value::Mapping(vec![
            (Value::Present(Box::new(Value::Str(s("key1")))), Value::I8(123)),
            (Value::Present(Box::new(Value::Str(s("key2")))), Value::I8(45)),
        ]),
        &[
            0x7B, 0x55, 0x04, 0x6B, 0x65, 0x79, 0x31, 0x69, 0x7B, 0x55, 0x04, 0x6B, 0x65, 0x79, 0x32,
            0x69, 0x2D, 0x7D,
        ],
    );
}

#[test]
fn serialize_map_key_err_unit() {
    assert_eq!(illegal_key_kind(Value::Unit), "()");
}

#[test]
fn serialize_map_key_err_vector() {
    assert_eq!(illegal_key_kind(Value::Sequence(vec![Value::I8(1), Value::I8(2), Value::I8(3)])), "seq");
}

#[test]
fn serialize_map_key_err_array() {
    assert_eq!(illegal_key_kind(Value::Tuple(vec![Value::I8(1), Value::I8(2), Value::I8(3)])), "tuple");
}

#[test]
fn serialize_map_key_err_tuple() {
    assert_eq!(illegal_key_kind(Value::Tuple(vec![Value::I8(1), Value::I8(2), Value::I8(3)])), "tuple");
}

#[test]
fn serialize_map_key_err_unit_struct() {
    assert_eq!(illegal_key_kind(Value::UnitStruct), "struct");
}

#[test]
fn serialize_map_key_err_newtype_struct() {
    assert_eq!(illegal_key_kind(Value::NewtypeStruct(Box::new(Value::I8(1)))), "struct");
}

#[test]
fn serialize_map_key_err_tuple_struct() {
    assert_eq!(
        illegal_key_kind(Value::TupleStruct(vec![Value::I8(1), Value::I16(2), Value::I32(3)])),
        "struct"
    );
}

#[test]
fn serialize_map_key_err_fields_struct() {
    assert_eq!(illegal_key_kind(Value::Record(fields_struct(1, false, "value"))), "struct");
}

#[test]
fn serialize_map_key_err_unit_variant() {
    assert_eq!(illegal_key_kind(Value::Union(s("MyUnitVariant"), Payload::Unit)), "enum");
}

#[test]
fn serialize_map_key_err_newtype_variant() {
    assert_eq!(
        illegal_key_kind(Value::Union(
            s("MyNewtypeVariant"),
            Payload::Newtype(Box::new(Value::Str(s("value"))))
        )),
        "enum"
    );
}

#[test]
fn serialize_map_key_err_tuple_variant() {
    assert_eq!(
        illegal_key_kind(Value::Union(
            s("MyTupleVariant"),
            Payload::Tuple(vec![Value::I8(1), Value::I16(2), Value::I32(3)])
        )),
        "enum"
    );
}

#[test]
fn serialize_map_key_err_struct_variant() {
    assert_eq!(
        illegal_key_kind(Value::Union(s("MyStructVariant"), Payload::Struct(fields_struct(1, false, "value")))),
        "enum"
    );
}
