use rsk::error::MicrogramError;

#[test]
fn string_error_converts() {
    let err: MicrogramError = "boom".to_string().into();
    match err {
        MicrogramError::Other(s) => assert_eq!(s, "boom"),
        other => panic!("unexpected variant: {other:?}"),
    }
}

#[test]
fn display_unknown_name() {
    let err = MicrogramError::UnknownName { name: "foo".into(), dir: "/tmp/mg".to_string() };
    let msg = err.message();
    assert!(msg.contains("foo"));
    assert!(msg.contains("/tmp/mg"));
}

#[test]
fn parse_failures_include_count() {
    let err = MicrogramError::ParseFailures { count: 3, details: "a\nb\nc".into() };
    assert!(err.message().contains("3 microgram file(s)"));
}

#[test]
fn error_messages_exact() {
    let err = MicrogramError::ParseFailures { count: 12, details: "x".into() };
    assert_eq!(err.message(), "12 microgram file(s) failed to parse:\nx");
    let err = MicrogramError::UnknownName { name: "a".into(), dir: "d".into() };
    assert_eq!(err.message(), "microgram 'a' not found in d");
    assert_eq!(MicrogramError::Other("plain".to_string()).message(), "plain");
}

#[test]
fn error_messages_wrap_io_errors() {
    let io = std::io::Error::new(std::io::ErrorKind::NotFound, "gone");
    let err: MicrogramError = io.into();
    assert_eq!(err.message(), "io error: gone");
    let io = std::io::Error::new(std::io::ErrorKind::Other, "denied");
    let err = MicrogramError::ReadDir { path: "/x".to_string(), source: io };
    assert_eq!(err.message(), "cannot read microgram directory /x: denied");
}

#[test]
fn error_messages_wrap_yaml_errors() {
    let e = serde_yaml::from_str::<u32>("[").unwrap_err();
    let text = e.to_string();
    let err: MicrogramError = e.into();
    assert_eq!(err.message(), format!("yaml error: {text}"));
}
