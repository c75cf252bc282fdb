use noise_query::error::Error;

#[test]
fn descriptions() {
    assert_eq!(Error::Parse("a".to_string()).description(), "a");
    assert_eq!(Error::Shred("b".to_string()).description(), "b");
    assert_eq!(Error::Rocks("c".to_string()).description(), "This is an rocksdb error");
    let err = Error::from(capnp::Error::failed("d".to_string()));
    assert_eq!(err.description(), "d");
}

#[test]
fn texts_for_a_reader() {
    assert_eq!(Error::Parse("a".to_string()).to_text(), "Parse error: a");
    assert_eq!(Error::Shred("b".to_string()).to_text(), "Shred error: b");
    assert_eq!(Error::Rocks("c".to_string()).to_text(), "RocksDB error: c");
    let err = Error::from(capnp::Error::failed("d".to_string()));
    assert_eq!(err.to_text(), "Capnproto error: Failed: d");
}

#[test]
fn the_error_beneath() {
    assert!(Error::Parse("a".to_string()).cause().is_none());
    assert!(Error::Shred("b".to_string()).cause().is_none());
    assert!(Error::Rocks("c".to_string()).cause().is_none());
    let err = Error::from(capnp::Error::overloaded("d".to_string()));
    assert!(matches!(err, Error::Capnp(_)));
    assert_eq!(err.cause().map(|inner| inner.extra.clone()), Some("d".to_string()));
}
