use serde_ubj::{
    from_vec, read_value, to_vec, ChunkedInput, Payload, PayloadShape, Shape, UbjError, UbjMarker,
    UbjReader, UbjWriter, Value,
};

fn s(x: &str) -> String {
    String::from(x)
}

fn reader_of(bytes: &[u8]) -> UbjReader {
    UbjReader::new(ChunkedInput::from_bytes(bytes.to_vec()))
}

fn reader_in_pieces(bytes: &[u8], size: usize) -> UbjReader {
    UbjReader::new(ChunkedInput::from_chunks(bytes.chunks(size).map(|c| c.to_vec()).collect()))
}

fn written_int64(v: i64) -> Vec<u8> {
    let mut w = UbjWriter::new();
    assert!(w.write_int64(v).is_ok());
    w.into_bytes()
}

fn record_shape() -> Vec<(String, Shape)> {
    vec![(s("x"), Shape::I8), (s("y"), Shape::Bool), (s("z"), Shape::Str)]
}

fn record() -> Vec<(String, Value)> {
    vec![(s("x"), Value::I8(-5)), (s("y"), Value::Bool(true)), (s("z"), Value::Str(s("caf\u{e9}")))]
}

fn union_shape() -> Shape {
    Shape::Union(vec![
        (s("Nothing"), PayloadShape::Unit),
        (s("One"), PayloadShape::Newtype(Box::new(Shape::I64))),
        (s("Many"), PayloadShape::Tuple(vec![Shape::U8, Shape::Char])),
        (s("Named"), PayloadShape::Struct(record_shape())),
    ])
}

fn sample_values() -> Vec<(Value, Shape)> {
    vec![
        (Value::Unit, Shape::Unit),
        (Value::Bool(false), Shape::Bool),
        (Value::I8(-128), Shape::I8),
        (Value::I16(123), Shape::I16),
        (Value::I16(-32768), Shape::I16),
        (Value::I32(65000), Shape::I32),
        (Value::I64(i64::MIN), Shape::I64),
        (Value::U8(255), Shape::U8),
        (Value::U16(65535), Shape::U16),
        (Value::U32(4294967295), Shape::U32),
        (Value::U64(i64::MAX as u64), Shape::U64),
        (Value::F32(1.5_f32.to_bits()), Shape::F32),
        (Value::F64((-0.25_f64).to_bits()), Shape::F64),
        (Value::Char('~'), Shape::Char),
        (Value::Str(s("")), Shape::Str),
        (Value::Str(s("\u{1f600} and \u{4e2d}")), Shape::Str),
        (Value::Absent, Shape::Optional(Box::new(Shape::I32))),
        (Value::Present(Box::new(Value::I32(7))), Shape::Optional(Box::new(Shape::I32))),
        (Value::UnitStruct, Shape::UnitStruct),
        (Value::NewtypeStruct(Box::new(Value::Str(s("n")))), Shape::NewtypeStruct(Box::new(Shape::Str))),
        (
            Value::Sequence(vec![
                Value::Sequence(vec![Value::I16(1), Value::I16(300)]),
                Value::Sequence(vec![]),
            ]),
            Shape::Sequence(Box::new(Shape::Sequence(Box::new(Shape::I16)))),
        ),
        (
            Value::Tuple(vec![Value::Bool(true), Value::Str(s("t"))]),
            Shape::Tuple(vec![Shape::Bool, Shape::Str]),
        ),
        (
            Value::TupleStruct(vec![Value::U8(1), Value::I64(-70000)]),
            Shape::TupleStruct(vec![Shape::U8, Shape::I64]),
        ),
        (Value::Record(record()), Shape::Record(record_shape())),
        (
            Value::Mapping(vec![
                (Value::Str(s("a")), Value::Sequence(vec![Value::U32(1)])),
                (Value::Str(s("b")), Value::Sequence(vec![])),
            ]),
            Shape::Mapping(Box::new(Shape::Sequence(Box::new(Shape::U32)))),
        ),
        (Value::Union(s("Nothing"), Payload::Unit), union_shape()),
        (Value::Union(s("One"), Payload::Newtype(Box::new(Value::I64(1 << 40)))), union_shape()),
        (
            Value::Union(s("Many"), Payload::Tuple(vec![Value::U8(9), Value::Char('x')])),
            union_shape(),
        ),
        (Value::Union(s("Named"), Payload::Struct(record())), union_shape()),
    ]
}

#[test]
fn round_trip_of_every_kind() {
    for (value, shape) in sample_values() {
        let bytes = to_vec(&value).unwrap();
        assert_eq!(from_vec(bytes, &shape).unwrap(), value);
    }
}

#[test]
fn round_trip_in_one_byte_pieces() {
    for (value, shape) in sample_values() {
        let bytes = to_vec(&value).unwrap();
        let mut reader = reader_in_pieces(&bytes, 1);
        assert_eq!(read_value(&mut reader, &shape).unwrap(), value);
    }
}

#[test]
fn narrowing_determinism() {
    assert_eq!(written_int64(65000), vec![0x6C, 0x00, 0x00, 0xFD, 0xE8]);
    assert_eq!(written_int64(123), vec![0x55, 0x7B]);
}

#[test]
fn narrowing_boundaries() {
    assert_eq!(written_int64(-129)[0], 0x49);
    assert_eq!(written_int64(-128), vec![0x69, 0x80]);
    assert_eq!(written_int64(-1), vec![0x69, 0xFF]);
    assert_eq!(written_int64(0), vec![0x55, 0x00]);
    assert_eq!(written_int64(255), vec![0x55, 0xFF]);
    assert_eq!(written_int64(256), vec![0x49, 0x01, 0x00]);
    assert_eq!(written_int64(32767), vec![0x49, 0x7F, 0xFF]);
    assert_eq!(written_int64(-32768), vec![0x49, 0x80, 0x00]);
    assert_eq!(written_int64(32768), vec![0x6C, 0x00, 0x00, 0x80, 0x00]);
    assert_eq!(written_int64(2147483647), vec![0x6C, 0x7F, 0xFF, 0xFF, 0xFF]);
    assert_eq!(written_int64(-2147483648), vec![0x6C, 0x80, 0x00, 0x00, 0x00]);
    assert_eq!(written_int64(2147483648), vec![0x4C, 0x00, 0x00, 0x00, 0x00, 0x80, 0x00, 0x00, 0x00]);
    assert_eq!(written_int64(i64::MIN), vec![0x4C, 0x80, 0, 0, 0, 0, 0, 0, 0]);
}

#[test]
fn narrowing_of_smaller_writers() {
    let mut w = UbjWriter::new();
    assert!(w.write_int16(-129).is_ok());
    assert!(w.write_int32(255).is_ok());
    assert!(w.write_int8(5).is_ok());
    assert!(w.write_uint8(200).is_ok());
    assert_eq!(w.bytes().as_slice(), &[0x49, 0xFF, 0x7F, 0x55, 0xFF, 0x69, 0x05, 0x55, 0xC8]);
}

#[test]
fn illegal_key_example_map() {
    let map = Value::Mapping(vec![
        (Value::Str(s("key1")), Value::I8(123)),
        (Value::Str(s("key2")), Value::I8(45)),
    ]);
    assert_eq!(
        to_vec(&map).unwrap(),
        vec![0x7B, 0x55, 0x04, 0x6B, 0x65, 0x79, 0x31, 0x69, 0x7B, 0x55, 0x04, 0x6B, 0x65, 0x79, 0x32, 0x69, 0x2D, 0x7D]
    );
}

#[test]
fn illegal_key_kinds() {
    let cases: Vec<(Value, &str)> = vec![
        (Value::F32(0), "f32"),
        (Value::F64(0), "f64"),
        (Value::I128(1), "i128"),
        (Value::U128(1), "u128"),
        (Value::Mapping(vec![]), "map"),
        (Value::Present(Box::new(Value::Bool(true))), "bool"),
    ];
    for (key, kind) in cases {
        let map = Value::Mapping(vec![(Value::Str(s("ok")), Value::Unit), (key, Value::Unit)]);
        match to_vec(&map) {
            Err(UbjError::IllegalKeyType(k)) => assert_eq!(k, kind),
            other => panic!("unexpected {:?}", other),
        }
    }
}

#[test]
fn char_range() {
    let mut w = UbjWriter::new();
    assert!(w.write_char('H').is_ok());
    assert_eq!(w.bytes().as_slice(), &[0x43, 0x48]);
    assert!(matches!(w.write_char('\u{80}'), Err(UbjError::CharNotAscii(0x80))));
    assert!(matches!(w.write_char('\u{1f600}'), Err(UbjError::CharNotAscii(0x1F600))));
    assert_eq!(w.bytes().as_slice(), &[0x43, 0x48]);
    assert_eq!(reader_of(&[0x43, 0x48]).read_char().unwrap(), 'H');
    assert_eq!(reader_of(&[0x43, 0x7F]).read_char().unwrap(), '\u{7f}');
    assert!(matches!(reader_of(&[0x43, 0x80]).read_char(), Err(UbjError::CharNotAscii(0x80))));
}

#[test]
fn truncated_input_fails_eof() {
    for (value, shape) in sample_values() {
        let bytes = to_vec(&value).unwrap();
        for end in 0..bytes.len() {
            match from_vec(bytes[..end].to_vec(), &shape) {
                Err(UbjError::UnexpectedEof) => {}
                other => panic!("prefix {} of {:?}: {:?}", end, bytes, other),
            }
        }
    }
}

#[test]
fn unexpected_first_byte_fails_marker() {
    for (value, shape) in sample_values() {
        let mut bytes = to_vec(&value).unwrap();
        bytes[0] = 0x21;
        assert!(matches!(from_vec(bytes, &shape), Err(UbjError::UnexpectedMarker(0x21))));
    }
}

fn text_bytes(text: &str) -> Vec<u8> {
    let mut w = UbjWriter::new();
    assert!(w.write_marked_string(text).is_ok());
    w.into_bytes()
}

#[test]
fn fragmented_utf8_at_every_offset() {
    let texts = ["a\u{e9}b", "\u{20ac}x", "\u{1f980}", "z\u{10348}\u{e9}\u{4e2d}q"];
    for text in texts.iter() {
        let bytes = text_bytes(text);
        for size in 1..=bytes.len() {
            let mut reader = reader_in_pieces(&bytes, size);
            assert_eq!(reader.read_marked_string().unwrap(), *text);
        }
        for cut in 1..bytes.len() {
            let chunks = vec![bytes[..cut].to_vec(), bytes[cut..].to_vec()];
            let mut reader = UbjReader::new(ChunkedInput::from_chunks(chunks));
            assert_eq!(reader.read_marked_string().unwrap(), *text);
        }
    }
}

#[test]
fn ill_formed_text_fails_utf8() {
    let bytes = [0x53, 0x55, 0x02, 0xC3, 0x28];
    for size in 1..=bytes.len() {
        assert!(matches!(reader_in_pieces(&bytes, size).read_marked_string(), Err(UbjError::Utf8Error(_))));
    }
    assert!(matches!(reader_of(&[0x53, 0x55, 0x01, 0xFF]).read_marked_string(), Err(UbjError::Utf8Error(0))));
    assert!(matches!(reader_of(&[0x53, 0x55, 0x02, 0x41, 0xE2]).read_marked_string(), Err(UbjError::Utf8Error(1))));
}

#[test]
fn non_destructive_probe() {
    let mut reader = reader_of(&[0x55, 0x7B, 0x5D, 0x7D]);
    assert!(matches!(reader.read_end_array(), Err(UbjError::UnexpectedMarker(0x55))));
    assert!(matches!(reader.read_end_object(), Err(UbjError::UnexpectedMarker(0x55))));
    assert!(matches!(reader.read_null(), Err(UbjError::UnexpectedMarker(0x55))));
    assert_eq!(reader.read_uint8().unwrap(), 0x7B);
    assert!(reader.read_end_array().is_ok());
    assert!(reader.read_end_object().is_ok());
    assert!(matches!(reader.read_end_object(), Err(UbjError::UnexpectedEof)));
}

#[test]
fn narrowed_lengths_and_integers_read_back() {
    let mut reader = reader_of(&[0x49, 0x01, 0x00, 0x69, 0xFF, 0x4C, 0, 0, 0, 1, 0, 0, 0, 0]);
    assert_eq!(reader.read_integer().unwrap(), 256);
    assert_eq!(reader.read_integer().unwrap(), -1);
    assert_eq!(reader.read_integer().unwrap(), 1 << 32);
    assert!(matches!(reader.read_integer(), Err(UbjError::UnexpectedEof)));
    assert!(matches!(reader_of(&[0x53]).read_integer(), Err(UbjError::UnexpectedMarker(0x53))));
}

#[test]
fn negative_string_length_is_refused() {
    assert!(matches!(reader_of(&[0x53, 0x69, 0xFF]).read_marked_string(), Err(UbjError::Unsupported(_))));
}

#[test]
fn out_of_range_integer_for_shape() {
    assert!(matches!(from_vec(vec![0x49, 0x01, 0x00], &Shape::I8), Err(UbjError::Unsupported(_))));
    assert!(matches!(from_vec(vec![0x69, 0xFF], &Shape::U16), Err(UbjError::Unsupported(_))));
    assert_eq!(from_vec(vec![0x69, 0x05], &Shape::U16).unwrap(), Value::U16(5));
}

#[test]
fn unknown_names_are_refused() {
    let record = Shape::Record(vec![(s("x"), Shape::I8)]);
    let bytes = to_vec(&Value::Record(vec![(s("w"), Value::I8(1))])).unwrap();
    assert!(matches!(from_vec(bytes, &record), Err(UbjError::Unsupported("unknown record field"))));
    let union = Shape::Union(vec![(s("A"), PayloadShape::Unit)]);
    let bytes = to_vec(&Value::Union(s("B"), Payload::Unit)).unwrap();
    assert!(matches!(from_vec(bytes, &union), Err(UbjError::Unsupported("unknown union alternative"))));
}

#[test]
fn short_tuple_is_refused() {
    let bytes = vec![0x5B, 0x69, 0x01, 0x5D];
    assert!(matches!(
        from_vec(bytes, &Shape::Tuple(vec![Shape::I8, Shape::I8])),
        Err(UbjError::UnexpectedMarker(0x5D))
    ));
}

#[test]
fn unsupported_values() {
    assert!(matches!(to_vec(&Value::Bytes(vec![1])), Err(UbjError::Unsupported(_))));
    assert!(matches!(to_vec(&Value::Sequence(vec![Value::I128(0)])), Err(UbjError::Unsupported("Rust i128 values"))));
}

#[test]
fn io_error_keeps_its_cause() {
    let err = UbjError::from_io_error(std::io::Error::new(std::io::ErrorKind::Other, "Disk failure"));
    match err {
        UbjError::IO(e) => assert_eq!(e.to_string(), "Disk failure"),
        other => panic!("unexpected {:?}", other),
    }
}

#[test]
fn markers_have_their_bytes() {
    let all = [
        (UbjMarker::Null, 0x5A), (UbjMarker::True, 0x54), (UbjMarker::False, 0x46),
        (UbjMarker::Int8, 0x69), (UbjMarker::Uint8, 0x55), (UbjMarker::Int16, 0x49),
        (UbjMarker::Int32, 0x6C), (UbjMarker::Int64, 0x4C), (UbjMarker::Float32, 0x64),
        (UbjMarker::Float64, 0x44), (UbjMarker::Char, 0x43), (UbjMarker::Str, 0x53),
        (UbjMarker::StartArray, 0x5B), (UbjMarker::EndArray, 0x5D),
        (UbjMarker::StartObject, 0x7B), (UbjMarker::EndObject, 0x7D),
    ];
    for (m, b) in all.iter() {
        assert_eq!(m.byte(), *b);
        assert_eq!(UbjMarker::from_byte(*b).unwrap(), *m);
    }
    assert!(matches!(UbjMarker::from_byte(0x00), Err(UbjError::UnexpectedMarker(0x00))));
}

#[test]
fn floats_read_back_as_bits() {
    let mut w = UbjWriter::new();
    assert!(w.write_float32(0.15625_f32.to_bits()).is_ok());
    assert!(w.write_float64(1.23456789_f64.to_bits()).is_ok());
    assert!(w.flush().is_ok());
    let bytes = w.into_bytes();
    let mut r = reader_in_pieces(&bytes, 3);
    assert_eq!(f32::from_bits(r.read_float32().unwrap()), 0.15625_f32);
    assert_eq!(f64::from_bits(r.read_float64().unwrap()), 1.23456789_f64);
}

#[test]
fn containers_and_strings_from_the_writer() {
    let mut w = UbjWriter::new();
    assert!(w.write_start_object().is_ok());
    assert!(w.write_unmarked_string("k").is_ok());
    assert!(w.write_start_array().is_ok());
    assert!(w.write_null().is_ok());
    assert!(w.write_bool(true).is_ok());
    assert!(w.write_end_array().is_ok());
    assert!(w.write_end_object().is_ok());
    let bytes = w.into_bytes();
    assert_eq!(bytes, vec![0x7B, 0x55, 0x01, 0x6B, 0x5B, 0x5A, 0x54, 0x5D, 0x7D]);
    let mut r = reader_of(&bytes);
    assert!(r.read_start_object().is_ok());
    assert_eq!(r.read_unmarked_string().unwrap(), "k");
    assert!(r.read_start_array().is_ok());
    assert!(r.read_null().is_ok());
    assert!(r.read_bool().unwrap());
    assert!(r.read_end_array().is_ok());
    assert!(r.read_end_object().is_ok());
}

#[test]
fn empty_pieces_are_skipped() {
    let chunks = vec![vec![], vec![0x49], vec![], vec![], vec![0x01, 0x02], vec![]];
    let mut r = UbjReader::new(ChunkedInput::from_chunks(chunks));
    assert_eq!(r.read_int16().unwrap(), 0x0102);
    assert!(matches!(r.read_int16(), Err(UbjError::UnexpectedEof)));
}
