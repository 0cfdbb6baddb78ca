use frfs::error::{Error, IoKind};

#[test]
fn io_errors_are_carried_through() {
    let e: Error = std::io::Error::new(std::io::ErrorKind::PermissionDenied, "denied").into();
    match e {
        Error::IO(inner) => assert_eq!(inner.kind(), std::io::ErrorKind::PermissionDenied),
        other => panic!("unexpected {:?}", other),
    }
}

#[test]
fn errors_as_io_kinds() {
    let io: Error = std::io::Error::new(std::io::ErrorKind::Other, "x").into();
    assert_eq!(io.io_kind(), IoKind::Carried);
    assert_eq!(Error::NotFound.io_kind(), IoKind::NotFound);
    assert_eq!(Error::IllegalData.io_kind(), IoKind::InvalidData);
    assert_eq!(Error::SerializationError("s".to_string()).io_kind(), IoKind::InvalidData);
    assert_eq!(Error::DeserializationError("d".to_string()).io_kind(), IoKind::InvalidData);
    assert_eq!(Error::Unknown("u".to_string()).io_kind(), IoKind::InvalidData);
}
