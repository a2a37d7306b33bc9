use serde_ubj::UbjError;

#[test]
fn display_ser_custom_error() {
    let msg = "An error occurred";
    let err = UbjError::Other(String::from(msg));
    assert_eq!(err.message().as_str(), msg);
}

#[test]
fn display_de_custom_error() {
    let msg = "An error occurred";
    let err = UbjError::Other(String::from(msg));
    assert_eq!(err.message().as_str(), msg);
}

#[test]
fn display_io_error() {
    let io_err = std::io::Error::new(std::io::ErrorKind::Other, "Disk failure");
    let err = UbjError::IO(io_err);
    assert_eq!(err.message().as_str(), "IO error occurred: Disk failure");
}

#[test]
fn source_io_error() {
    let io_err = std::io::Error::new(std::io::ErrorKind::NotFound, "File not found");
    let err = UbjError::IO(io_err);
    match err {
        UbjError::IO(cause) => assert_eq!(cause.to_string().as_str(), "File not found"),
        other => panic!("unexpected {:?}", other),
    }
}

#[test]
fn messages_of_every_kind() {
    assert_eq!(UbjError::Unsupported("Rust i128 values").message(), "Unsupported: Rust i128 values");
    assert_eq!(UbjError::IllegalKeyType("bool").message(), "Illegal key type: bool");
    assert_eq!(UbjError::CharNotAscii(0xFC).message(), "Char not within ASCII range: 0xfc");
    assert_eq!(UbjError::CharNotAscii(0x1F600).message(), "Char not within ASCII range: 0x1f600");
    assert_eq!(UbjError::UnexpectedMarker(0).message(), "Unexpected marker: 0x0");
    assert_eq!(UbjError::UnexpectedMarker(0xFF).message(), "Unexpected marker: 0xff");
    assert_eq!(UbjError::UnexpectedEof.message(), "Unexpected end of file");
    assert_eq!(UbjError::Utf8Error(17).message(), "UTF-8 error occurred: invalid utf-8 from index 17");
    assert_eq!(
        UbjError::BufferTooSmall(1234).message(),
        "Buffer too small. Consider increasing its capacity to at least 1234"
    );
    assert_eq!(UbjError::EnumVariantIndexTooLarge(0).message(), "Enum variant index is too large: 0");
    assert_eq!(
        UbjError::EnumVariantIndexTooLarge(u32::MAX).message(),
        "Enum variant index is too large: 4294967295"
    );
}
