use ikigai_core::invocation::{inline_arg, inline_str, DependencyLog};
use ikigai_core::iri::Iri;
use ikigai_core::sorted::StrSet;
use ikigai_core::verb::Verb;
use ikigai_core::{ArgRef, ContentId, Error, Expiry, Request, Time};

fn request() -> Request {
    Request::new(Verb::Source, Iri::parse("urn:x").unwrap())
        .with_arg("in", ArgRef::Inline(b"hello".to_vec()))
        .with_arg("bad", ArgRef::Inline(vec![0xc3]))
        .with_arg("ref", ArgRef::Reference(Iri::parse("urn:y").unwrap()))
        .with_arg("blob", ArgRef::Content(ContentId::of(b"z")))
}

#[test]
fn inline_arguments_read_as_bytes_and_text() {
    let r = request();
    assert_eq!(inline_arg(&r, "in").unwrap(), b"hello");
    assert_eq!(inline_str(&r, "in").unwrap(), "hello");
    match inline_str(&r, "bad") {
        Err(Error::InvalidArgument { name, detail }) => {
            assert_eq!(name, "bad");
            assert_eq!(detail, "not valid UTF-8");
        }
        other => panic!("unexpected {other:?}"),
    }
    match inline_arg(&r, "ref") {
        Err(Error::InvalidArgument { detail, .. }) => assert_eq!(detail, "expected an inline value"),
        other => panic!("unexpected {other:?}"),
    }
    assert!(matches!(inline_arg(&r, "blob"), Err(Error::InvalidArgument { .. })));
    match inline_arg(&r, "absent") {
        Err(Error::MissingArgument(n)) => assert_eq!(n, "absent"),
        other => panic!("unexpected {other:?}"),
    }
}

#[test]
fn dependencies_fold_into_the_most_restrictive_expiry_and_all_threads() {
    let mut log = DependencyLog::new();
    assert_eq!(log.dependency_expiry(), Expiry::Never);
    let mut a = StrSet::new();
    a.insert("urn:t:a");
    log.record(Expiry::At(Time::from_millis(50)), &a);
    let mut b = StrSet::new();
    b.insert("urn:t:b");
    b.insert("urn:t:a");
    log.record(Expiry::At(Time::from_millis(20)), &b);
    assert_eq!(log.dependency_expiry(), Expiry::At(Time::from_millis(20)));
    let threads = log.dependency_threads();
    assert_eq!(threads.len(), 2);
    assert!(threads.contains("urn:t:a") && threads.contains("urn:t:b"));
    log.record(Expiry::Always, &StrSet::new());
    assert_eq!(log.dependency_expiry(), Expiry::Always);
}
