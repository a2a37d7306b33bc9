use serde_ubj::{read_value, ChunkedInput, PayloadShape, Shape, UbjError, UbjReader, UbjResult, Value};

fn s(x: &str) -> String {
    String::from(x)
}

/// Reads a value of shape `sh` from `bytes`, delivered in pieces of at most
/// `capacity` bytes, as a buffered reader of that capacity would.
fn decode_in_pieces(bytes: &[u8], capacity: usize, sh: &Shape) -> UbjResult<Value> {
    let chunks: Vec<Vec<u8>> = bytes.chunks(capacity).map(|c| c.to_vec()).collect();
    let mut reader = UbjReader::new(ChunkedInput::from_chunks(chunks));
    read_value(&mut reader, sh)
}

fn decode(bytes: &[u8], sh: &Shape) -> UbjResult<Value> {
    decode_in_pieces(bytes, 8192, sh)
}

fn assert_decode_ok(bytes: &[u8], sh: Shape, expected: Value) {
    let result = decode(bytes, &sh);
    assert!(result.is_ok(), "{:?}", result);
    assert_eq!(result.unwrap(), expected);
}

fn assert_split_text_ok(bytes: &[u8], capacity: usize) {
    let expected = String::from_utf8(bytes[3..].to_vec()).unwrap();
    let result = decode_in_pieces(bytes, capacity, &Shape::Str);
    assert_eq!(result.unwrap(), Value::Str(expected));
}

fn fields_shape() -> Vec<(String, Shape)> {
    vec![(s("x"), Shape::I8), (s("y"), Shape::Bool), (s("z"), Shape::Str)]
}

fn fields_value(x: i8, y: bool, z: &str) -> Vec<(String, Value)> {
    vec![(s("x"), Value::I8(x)), (s("y"), Value::Bool(y)), (s("z"), Value::Str(s(z)))]
}

fn my_enum_shape() -> Shape {
    Shape::Union(vec![
        (s("MyUnitVariant"), PayloadShape::Unit),
        (s("MyNewtypeVariant"), PayloadShape::Newtype(Box::new(Shape::Str))),
        (s("MyTupleVariant"), PayloadShape::Tuple(vec![Shape::I8, Shape::I16, Shape::I32])),
        (s("MyStructVariant"), PayloadShape::Struct(fields_shape())),
    ])
}

#[test]
fn deserialize_to_unit() {
    assert_decode_ok(&[0x5A], Shape::Unit, Value::Unit);
    assert!(matches!(decode(&[], &Shape::Unit), Err(UbjError::UnexpectedEof)));
    assert!(matches!(decode(&[0xFF], &Shape::Unit), Err(UbjError::UnexpectedMarker(0xFF))));
}

#[test]
fn deserialize_to_bool() {
    assert_decode_ok(&[0x54], Shape::Bool, Value::Bool(true));
    assert_decode_ok(&[0x46], Shape::Bool, Value::Bool(false));
    assert!(matches!(decode(&[], &Shape::Bool), Err(UbjError::UnexpectedEof)));
    assert!(matches!(decode(&[0xFF], &Shape::Bool), Err(UbjError::UnexpectedMarker(0xFF))));
}

#[test]
fn deserialize_to_i8() {
    assert_decode_ok(&[0x69, 0x85], Shape::I8, Value::I8(-123));
    assert_decode_ok(&[0x69, 0x7B], Shape::I8, Value::I8(123));
    assert!(matches!(decode(&[0x69], &Shape::I8), Err(UbjError::UnexpectedEof)));
    assert!(matches!(decode(&[0xFF, 0x85], &Shape::I8), Err(UbjError::UnexpectedMarker(0xFF))));
}

#[test]
fn deserialize_to_u8() {
    assert_decode_ok(&[0x55, 0x7B], Shape::U8, Value::U8(123));
    assert_decode_ok(&[0x55, 0xFE], Shape::U8, Value::U8(254));
    assert!(matches!(decode(&[0x55], &Shape::U8), Err(UbjError::UnexpectedEof)));
    assert!(matches!(decode(&[0xFF, 0x7B], &Shape::U8), Err(UbjError::UnexpectedMarker(0xFF))));
}

#[test]
fn deserialize_to_i16() {
    assert_decode_ok(&[0x49, 0x80, 0x44], Shape::I16, Value::I16(-32700));
    assert_decode_ok(&[0x49, 0x7F, 0xBC], Shape::I16, Value::I16(32700));
    assert!(matches!(decode(&[0x49, 0x7F], &Shape::I16), Err(UbjError::UnexpectedEof)));
    assert!(matches!(decode(&[0xFF, 0x80, 0x44], &Shape::I16), Err(UbjError::UnexpectedMarker(0xFF))));
}

#[test]
fn deserialize_to_i32() {
    assert_decode_ok(&[0x6C, 0xB5, 0xA4, 0xE9, 0x00], Shape::I32, Value::I32(-1247483648));
    assert_decode_ok(&[0x6C, 0xFF, 0xFF, 0x02, 0x18], Shape::I32, Value::I32(-65000));
    assert_decode_ok(&[0x6C, 0x00, 0x00, 0xFD, 0xE8], Shape::I32, Value::I32(65000));
    assert_decode_ok(&[0x6C, 0x4A, 0x5B, 0x17, 0x00], Shape::I32, Value::I32(1247483648));
    assert!(matches!(decode(&[0x6C, 0x4A, 0x5B], &Shape::I32), Err(UbjError::UnexpectedEof)));
    assert!(matches!(
        decode(&[0xFF, 0x4A, 0x5B, 0x17, 0x00], &Shape::I32),
        Err(UbjError::UnexpectedMarker(0xFF))
    ));
}

#[test]
fn deserialize_1_2_1_split_bytes_to_i32() {
    let bytes: &[u8] = &[0x6C, 0x4A, 0x5B, 0x17, 0x00];
    assert_eq!(decode_in_pieces(bytes, 2, &Shape::I32).unwrap(), Value::I32(1247483648));
}

#[test]
fn deserialize_to_i64() {
    assert_decode_ok(&[0x4C, 0xFF, 0xFC, 0xB9, 0x23, 0xA2, 0x9C, 0x77, 0x9B], Shape::I64, Value::I64(-922337203685477));
    assert_decode_ok(&[0x4C, 0xFF, 0xFF, 0xFF, 0xFF, 0x00, 0x00, 0x00, 0x06], Shape::I64, Value::I64(-4294967290));
    assert_decode_ok(&[0x4C, 0x00, 0x00, 0x00, 0x00, 0xFF, 0xFF, 0xFF, 0xFA], Shape::I64, Value::I64(4294967290));
    assert_decode_ok(&[0x4C, 0x00, 0x03, 0x46, 0xDC, 0x5D, 0x63, 0x88, 0x65], Shape::I64, Value::I64(922337203685477));
    assert!(matches!(decode(&[0x4C, 0x00, 0x03, 0x46, 0xDC], &Shape::I64), Err(UbjError::UnexpectedEof)));
    assert!(matches!(
        decode(&[0xFF, 0x00, 0x03, 0x46, 0xDC, 0x5D, 0x63, 0x88, 0x65], &Shape::I64),
        Err(UbjError::UnexpectedMarker(0xFF))
    ));
}

#[test]
fn deserialize_6_2_split_bytes_to_i64() {
    let bytes: &[u8] = &[0x4C, 0xFF, 0xFC, 0xB9, 0x23, 0xA2, 0x9C, 0x77, 0x9B];
    assert_eq!(decode_in_pieces(bytes, 7, &Shape::I64).unwrap(), Value::I64(-922337203685477));
}

#[test]
fn deserialize_to_i128() {
    assert!(matches!(decode(&[], &Shape::I128), Err(UbjError::Unsupported(_))));
}

// Unsigned integers have no marker of their own: they read back from any
// integer marker whose value fits, so an empty input is a truncation.
#[test]
fn deserialize_to_u16() {
    assert!(matches!(decode(&[], &Shape::U16), Err(UbjError::UnexpectedEof)));
}

#[test]
fn deserialize_to_u32() {
    assert!(matches!(decode(&[], &Shape::U32), Err(UbjError::UnexpectedEof)));
}

#[test]
fn deserialize_to_u64() {
    assert!(matches!(decode(&[], &Shape::U64), Err(UbjError::UnexpectedEof)));
}

#[test]
fn deserialize_to_u128() {
    assert!(matches!(decode(&[], &Shape::U128), Err(UbjError::Unsupported(_))));
}

#[test]
fn deserialize_to_f32() {
    assert_decode_ok(&[0x64, 0x3E, 0x20, 0x00, 0x00], Shape::F32, Value::F32(0.15625_f32.to_bits()));
    assert!(matches!(decode(&[0x64, 0x3E, 0x20], &Shape::F32), Err(UbjError::UnexpectedEof)));
    assert!(matches!(
        decode(&[0x53, 0x3E, 0x20, 0x00, 0x00], &Shape::F32),
        Err(UbjError::UnexpectedMarker(0x53))
    ));
}

#[test]
fn deserialize_3_1_split_bytes_to_f32() {
    let bytes: &[u8] = &[0x64, 0xC2, 0xED, 0x40, 0x01];
    assert_eq!(decode_in_pieces(bytes, 4, &Shape::F32).unwrap(), Value::F32((-118.625008_f32).to_bits()));
}

#[test]
fn deserialize_to_f64() {
    assert_decode_ok(
        &[0x44, 0x41, 0x70, 0x00, 0x00, 0x02, 0x00, 0x00, 0x00],
        Shape::F64,
        Value::F64(16777216.125_f64.to_bits()),
    );
    assert!(matches!(decode(&[0x44, 0x41, 0x70, 0x00, 0x00], &Shape::F64), Err(UbjError::UnexpectedEof)));
    assert!(matches!(
        decode(&[0x53, 0x41, 0x70, 0x00, 0x00, 0x02, 0x00, 0x00, 0x00], &Shape::F64),
        Err(UbjError::UnexpectedMarker(0x53))
    ));
}

#[test]
fn deserialize_5_3_split_bytes_to_f64() {
    let bytes: &[u8] = &[0x44, 0x3F, 0xF3, 0xBE, 0x76, 0xC8, 0xB4, 0x39, 0x58];
    assert_eq!(decode_in_pieces(bytes, 6, &Shape::F64).unwrap(), Value::F64(1.234_f64.to_bits()));
}

#[test]
fn deserialize_to_char() {
    assert_decode_ok(&[0x43, 0x48], Shape::Char, Value::Char('H'));
    assert!(matches!(decode(&[0x43, 0xFF], &Shape::Char), Err(UbjError::CharNotAscii(0xFF))));
    assert!(matches!(decode(&[0xFF, 0x48], &Shape::Char), Err(UbjError::UnexpectedMarker(0xFF))));
    assert!(matches!(decode(&[], &Shape::Char), Err(UbjError::UnexpectedEof)));
}

#[test]
fn deserialize_evenly_split_bytes_to_utf8_string() {
    let bytes = &[
        0x53, 0x69, 0x1D, 0xC2, 0xA1, 0x52, 0x75, 0x73, 0x74, 0x20, 0x69, 0x73, 0x20, 0x73, 0x61,
        0x66, 0x65, 0x20, 0xF0, 0x9F, 0xA6, 0x80, 0x20, 0x61, 0x6E, 0x64, 0x20, 0x66, 0x61, 0x73,
        0x74, 0x21,
    ];
    assert_split_text_ok(bytes, 15);
}

#[test]
fn deserialize_1_1_split_bytes_to_utf8_string() {
    let bytes = &[
        0x53, 0x69, 0x1D, 0x54, 0x68, 0x65, 0x20, 0x63, 0x61, 0x66, 0xC3, 0xA9, 0x20, 0x63, 0x6F,
        0x73, 0x74, 0x73, 0x20, 0xC2, 0xA3, 0x31, 0x35, 0x20, 0x74, 0x6F, 0x20, 0x65, 0x6E, 0x74,
        0x65, 0x72,
    ];
    assert_split_text_ok(bytes, 20);
}

#[test]
fn deserialize_1_2_split_bytes_to_utf8_string() {
    let bytes = &[
        0x53, 0x69, 0x1D, 0x4F, 0x75, 0x72, 0x20, 0x74, 0x65, 0x61, 0x6D, 0x20, 0x69, 0x73, 0x20,
        0xE2, 0x9A, 0xA1, 0x20, 0x66, 0x61, 0x73, 0x74, 0x20, 0x61, 0x6E, 0x64, 0x20, 0x73, 0x6C,
        0x69, 0x6D,
    ];
    assert_split_text_ok(bytes, 16);
}

#[test]
fn deserialize_2_1_split_bytes_to_utf8_string() {
    let bytes = &[
        0x53, 0x69, 0x1D, 0x4F, 0x75, 0x72, 0x20, 0x74, 0x65, 0x61, 0x6D, 0x20, 0x69, 0x73, 0x20,
        0xE2, 0x9A, 0xA1, 0x20, 0x66, 0x61, 0x73, 0x74, 0x20, 0x61, 0x6E, 0x64, 0x20, 0x73, 0x6C,
        0x69, 0x6D,
    ];
    assert_split_text_ok(bytes, 17);
}

#[test]
fn deserialize_3_1_split_bytes_to_utf8_string() {
    let bytes = &[
        0x53, 0x69, 0x1D, 0xC2, 0xA1, 0x52, 0x75, 0x73, 0x74, 0x20, 0x69, 0x73, 0x20, 0x73, 0x61,
        0x66, 0x65, 0x20, 0xF0, 0x9F, 0xA6, 0x80, 0x20, 0x61, 0x6E, 0x64, 0x20, 0x66, 0x61, 0x73,
        0x74, 0x21,
    ];
    assert_split_text_ok(bytes, 21);
}

#[test]
fn deserialize_2_2_split_bytes_to_utf8_string() {
    let bytes = &[
        0x53, 0x69, 0x1D, 0xC2, 0xA1, 0x52, 0x75, 0x73, 0x74, 0x20, 0x69, 0x73, 0x20, 0x73, 0x61,
        0x66, 0x65, 0x20, 0xF0, 0x9F, 0xA6, 0x80, 0x20, 0x61, 0x6E, 0x64, 0x20, 0x66, 0x61, 0x73,
        0x74, 0x21,
    ];
    assert_split_text_ok(bytes, 20);
}

#[test]
fn deserialize_1_3_split_bytes_to_utf8_string() {
    let bytes = &[
        0x53, 0x69, 0x1D, 0xC2, 0xA1, 0x52, 0x75, 0x73, 0x74, 0x20, 0x69, 0x73, 0x20, 0x73, 0x61,
        0x66, 0x65, 0x20, 0xF0, 0x9F, 0xA6, 0x80, 0x20, 0x61, 0x6E, 0x64, 0x20, 0x66, 0x61, 0x73,
        0x74, 0x21,
    ];
    assert_split_text_ok(bytes, 19);
}

fn generated_text(byte_count: usize) -> (String, Vec<u8>) {
    let chars = ['a', '\u{e9}', '\u{4e2d}', '\u{1f600}'];
    let mut text = String::new();
    let mut i = 0;
    while text.len() < byte_count {
        let remaining = byte_count - text.len();
        let c = chars[i % 4];
        text.push(if c.len_utf8() <= remaining { c } else { 'a' });
        i += 1;
    }
    let mut ubj = vec![0x53];
    let len = text.len();
    if len <= 255 {
        ubj.push(0x55);
        ubj.push(len as u8);
    } else if len <= i16::MAX as usize {
        ubj.push(0x49);
        ubj.extend_from_slice(&(len as i16).to_be_bytes());
    } else {
        ubj.push(0x6C);
        ubj.extend_from_slice(&(len as i32).to_be_bytes());
    }
    ubj.extend_from_slice(text.as_bytes());
    (text, ubj)
}

#[test]
fn deserialize_45_contiguous_bytes_to_utf8_string() {
    let (text, ubj) = generated_text(45);
    assert_decode_ok(&ubj, Shape::Str, Value::Str(text));
}

#[test]
fn deserialize_230_contiguous_bytes_to_utf8_string() {
    let (text, ubj) = generated_text(230);
    assert_decode_ok(&ubj, Shape::Str, Value::Str(text));
}

#[test]
fn deserialize_15300_contiguous_bytes_to_utf8_string() {
    let (text, ubj) = generated_text(15300);
    assert_decode_ok(&ubj, Shape::Str, Value::Str(text));
}

#[test]
fn deserialize_7483648_contiguous_bytes_to_utf8_string() {
    let (text, ubj) = generated_text(7483648);
    assert_decode_ok(&ubj, Shape::Str, Value::Str(text));
}

#[test]
fn deserialize_to_none() {
    assert_decode_ok(&[0x5A], Shape::Optional(Box::new(Shape::Bool)), Value::Absent);
}

#[test]
fn deserialize_to_some_bool() {
    assert_decode_ok(&[0x54], Shape::Optional(Box::new(Shape::Bool)), Value::Present(Box::new(Value::Bool(true))));
    assert_decode_ok(&[0x46], Shape::Optional(Box::new(Shape::Bool)), Value::Present(Box::new(Value::Bool(false))));
}

#[test]
fn deserialize_to_vector() {
    assert_decode_ok(
        &[0x5B, 0x69, 0x0C, 0x69, 0x40, 0x69, 0x7B, 0x5D],
        Shape::Sequence(Box::new(Shape::I8)),
        Value::Sequence(vec![Value::I8(12), Value::I8(64), Value::I8(123)]),
    );
}

#[test]
fn deserialize_to_array() {
    assert_decode_ok(
        &[0x5B, 0x69, 0x0C, 0x69, 0x40, 0x69, 0x7B, 0x5D],
        Shape::Tuple(vec![Shape::I8, Shape::I8, Shape::I8]),
        Value::Tuple(vec![Value::I8(12), Value::I8(64), Value::I8(123)]),
    );
}

#[test]
fn deserialize_to_tuple() {
    assert_decode_ok(
        &[0x5B, 0x69, 0x0C, 0x69, 0x40, 0x69, 0x7B, 0x5D],
        Shape::Tuple(vec![Shape::I8, Shape::I8, Shape::I8]),
        Value::Tuple(vec![Value::I8(12), Value::I8(64), Value::I8(123)]),
    );
}

#[test]
fn deserialize_to_unit_struct() {
    assert_decode_ok(&[0x5A], Shape::UnitStruct, Value::UnitStruct);
}

#[test]
fn deserialize_to_newtype_struct() {
    assert_decode_ok(
        &[0x69, 0x7B],
        Shape::NewtypeStruct(Box::new(Shape::I8)),
        Value::NewtypeStruct(Box::new(Value::I8(123))),
    );
}

#[test]
fn deserialize_to_tuple_struct() {
    assert_decode_ok(
        &[0x5B, 0x69, 0x7B, 0x49, 0x7F, 0xBC, 0x6C, 0x4A, 0x5B, 0x17, 0x00, 0x5D],
        Shape::TupleStruct(vec![Shape::I8, Shape::I16, Shape::I32]),
        Value::TupleStruct(vec![Value::I8(123), Value::I16(32700), Value::I32(1247483648)]),
    );
}

#[test]
fn deserialize_to_struct() {
    assert_decode_ok(
        &[
            0x7B, 0x55, 0x01, 0x78, 0x69, 0x7B, 0x55, 0x01, 0x79, 0x46, 0x55, 0x01, 0x7A, 0x53, 0x55,
            0x05, 0x76, 0x61, 0x6C, 0x75, 0x65, 0x7D,
        ],
        Shape::Record(fields_shape()),
        Value::Record(fields_value(123, false, "value")),
    );
}

#[test]
fn deserialize_to_unit_variant() {
    assert_decode_ok(
        &[
            0x7B, 0x55, 0x0D, 0x4D, 0x79, 0x55, 0x6E, 0x69, 0x74, 0x56, 0x61, 0x72, 0x69, 0x61, 0x6E,
            0x74, 0x5A, 0x7D,
        ],
        my_enum_shape(),
        Value::Union(s("MyUnitVariant"), serde_ubj::Payload::Unit),
    );
}

#[test]
fn deserialize_to_newtype_variant() {
    assert_decode_ok(
        &[
            0x7B, 0x55, 0x10, 0x4D, 0x79, 0x4E, 0x65, 0x77, 0x74, 0x79, 0x70, 0x65, 0x56, 0x61, 0x72,
            0x69, 0x61, 0x6E, 0x74, 0x53, 0x55, 0x05, 0x76, 0x61, 0x6C, 0x75, 0x65, 0x7D,
        ],
        my_enum_shape(),
        Value::Union(s("MyNewtypeVariant"), serde_ubj::Payload::Newtype(Box::new(Value::Str(s("value"))))),
    );
}

#[test]
fn deserialize_to_tuple_variant() {
    assert_decode_ok(
        &[
            0x7B, 0x55, 0x0E, 0x4D, 0x79, 0x54, 0x75, 0x70, 0x6C, 0x65, 0x56, 0x61, 0x72, 0x69, 0x61,
            0x6E, 0x74, 0x5B, 0x69, 0x7B, 0x49, 0x7F, 0xBC, 0x6C, 0x4A, 0x5B, 0x17, 0x00, 0x5D, 0x7D,
        ],
        my_enum_shape(),
        Value::Union(
            s("MyTupleVariant"),
            serde_ubj::Payload::Tuple(vec![Value::I8(123), Value::I16(32700), Value::I32(1247483648)]),
        ),
    );
}

#[test]
fn deserialize_to_struct_variant() {
    assert_decode_ok(
        &[
            0x7B, 0x55, 0x0F, 0x4D, 0x79, 0x53, 0x74, 0x72, 0x75, 0x63, 0x74, 0x56, 0x61, 0x72, 0x69,
            0x61, 0x6E, 0x74, 0x7B, 0x55, 0x01, 0x78, 0x69, 0x7B, 0x55, 0x01, 0x79, 0x46, 0x55, 0x01,
            0x7A, 0x53, 0x55, 0x05, 0x76, 0x61, 0x6C, 0x75, 0x65, 0x7D, 0x7D,
        ],
        my_enum_shape(),
        Value::Union(s("MyStructVariant"), serde_ubj::Payload::Struct(fields_value(123, false, "value"))),
    );
}

#[test]
fn deserialize_to_map_key_str() {
    assert_decode_ok(
        &[
            0x7B, 0x55, 0x04, 0x6B, 0x65, 0x79, 0x31, 0x69, 0x7B, 0x55, 0x04, 0x6B, 0x65, 0x79, 0x32,
            0x69, 0x2D, 0x7D,
        ],
        Shape::Mapping(Box::new(Shape::I8)),
        Value::Mapping(vec![
            (Value::Str(s("key1")), Value::I8(123)),
            (Value::Str(s("key2")), Value::I8(45)),
        ]),
    );
}
