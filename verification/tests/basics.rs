use ikigai_core::iri::{escape_iri_fragment, is_iri_safe, Iri};
use ikigai_core::verb::Verb;
use ikigai_core::{Error, Expiry, ReprType, Representation, Time};

#[test]
fn transient_is_only_timeout_and_unavailable() {
    assert!(Error::Timeout("slow".into()).is_transient());
    assert!(Error::Unavailable("down".into()).is_transient());
    assert!(!Error::Denied("no grant".into()).is_transient());
    assert!(!Error::NotFound("gone".into()).is_transient());
    assert!(!Error::Endpoint("boom".into()).is_transient());
    assert!(!Error::MissingArgument("in".into()).is_transient());
    assert!(!Error::Unresolved(Iri::parse("urn:x").unwrap()).is_transient());
}

#[test]
fn error_texts() {
    assert_eq!(Error::MissingArgument("in".into()).to_string(), "missing required argument `in`");
    assert_eq!(
        Error::Unresolved(Iri::parse("urn:x").unwrap()).to_string(),
        "no endpoint resolved for urn:x"
    );
}

#[test]
fn cacheability_matches_idempotency() {
    for v in [Verb::Source, Verb::Exists, Verb::Meta] {
        assert!(v.is_cacheable() && !v.is_mutating());
    }
    for v in [Verb::Sink, Verb::Delete] {
        assert!(!v.is_cacheable() && v.is_mutating());
    }
}

#[test]
fn accepts_absolute_iris() {
    let iri = Iri::parse("http://example.com/foo").unwrap();
    assert_eq!(iri.as_str(), "http://example.com/foo");
    Iri::parse("urn:ikigai:space:root").unwrap();
}

#[test]
fn rejects_relative_or_malformed() {
    assert!(Iri::parse("").is_err());
    assert!(Iri::parse("foo/bar").is_err());
    assert!(Iri::parse("http://exa mple.com").is_err());
}

#[test]
fn iri_safety_covers_the_whole_turtle_exclusion_set() {
    for c in ['<', '>', '"', '{', '}', '|', '^', '`', '\\', ' ', '\n', '\t'] {
        assert!(!is_iri_safe(&format!("a{c}b")), "{c:?} must be forbidden");
    }
    for c in '\u{0}'..='\u{20}' {
        assert!(!is_iri_safe(&c.to_string()), "{c:?} must be forbidden");
    }
    for s in ["a%3Eb", "urn:cms:graph#frag", "café", "toUpper", "a~b", "a'b"] {
        assert!(is_iri_safe(s), "{s} must be allowed");
    }
}

#[test]
fn escaping_a_safe_fragment_borrows_it_unchanged() {
    let s = "urn:meeting:zoom:schedule";
    match escape_iri_fragment(s) {
        std::borrow::Cow::Borrowed(b) => assert!(std::ptr::eq(b, s)),
        std::borrow::Cow::Owned(o) => panic!("safe fragment was rewritten to {o}"),
    }
}

#[test]
fn the_escaped_set_stops_at_the_grammar_boundary() {
    assert_eq!(escape_iri_fragment("a\u{7f}b"), "a\u{7f}b");
    assert_eq!(escape_iri_fragment("a\u{20}b"), "a%20b");
    assert_eq!(escape_iri_fragment("a\u{0}b"), "a%00b");
}

#[test]
fn canonical_sorts_params() {
    let t = ReprType::new("text/plain").with_param("charset", "utf-8").with_param("boundary", "x");
    assert_eq!(t.canonical(), "text/plain;boundary=x;charset=utf-8");
}

#[test]
fn type_is_part_of_identity() {
    let utf8 = Representation::new(
        ReprType::new("text/plain").with_param("charset", "utf-8"),
        b"hi".to_vec(),
    );
    let latin1 = Representation::new(
        ReprType::new("text/plain").with_param("charset", "latin-1"),
        b"hi".to_vec(),
    );
    assert_ne!(utf8.content_id(), latin1.content_id());
    assert_eq!(utf8.content_id(), utf8.duplicate().content_id());
}

#[test]
fn most_restrictive_is_the_expiry_meet() {
    let t1 = Time::from_millis(100);
    let t2 = Time::from_millis(200);
    assert_eq!(Expiry::Always.most_restrictive(Expiry::Never), Expiry::Always);
    assert_eq!(Expiry::At(t1).most_restrictive(Expiry::Always), Expiry::Always);
    assert_eq!(Expiry::Never.most_restrictive(Expiry::At(t1)), Expiry::At(t1));
    assert_eq!(Expiry::At(t1).most_restrictive(Expiry::At(t2)), Expiry::At(t1));
    assert_eq!(Expiry::Never.most_restrictive(Expiry::Never), Expiry::Never);
}

#[test]
fn representations_compare_by_type_bytes_and_expiry() {
    let a = Representation::new(ReprType::new("text/plain"), b"x".to_vec());
    let b = Representation::new(ReprType::new("text/plain"), b"x".to_vec()).depends_on("urn:t:a");
    assert!(a.same_content(&b), "threads are provenance, not content");
    assert!(!a.same_content(&a.duplicate().cacheable()));
    let c = Representation::new(ReprType::new("text/plain").with_param("charset", "utf-8"), b"x".to_vec());
    assert!(!a.same_content(&c));
    let d = Representation::new(ReprType::new("text/plain"), b"y".to_vec());
    assert!(!a.same_content(&d));
}

#[test]
fn an_iri_parses_from_a_str() {
    let iri: Iri = "urn:x:y".parse().unwrap();
    assert_eq!(iri.as_str(), "urn:x:y");
    assert!("not an iri".parse::<Iri>().is_err());
}
