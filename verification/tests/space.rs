use ikigai_core::iri::Iri;
use ikigai_core::space::combine_entries;
use ikigai_core::{ChainIdentity, SpaceEntry};

#[test]
fn a_chain_identity_names_its_corridors_innermost_first() {
    let empty = ChainIdentity::empty();
    assert!(empty.is_empty());
    assert!(!empty.is_severed());
    let chain = ChainIdentity::empty().with_named(Iri::parse("urn:ctx:a").unwrap()).sever();
    assert!(chain.is_severed());
    assert_eq!(chain.to_text(), "urn:ctx:a severed");
    assert_eq!(ChainIdentity::empty().to_text(), "root");
}

#[test]
fn severing_twice_is_severing_once() {
    let a = ChainIdentity::empty().sever();
    let b = ChainIdentity::empty().sever().sever();
    assert_eq!(a.fingerprint(), b.fingerprint());
    assert_eq!(a.to_text(), b.to_text());
}

#[test]
fn different_chains_fingerprint_differently() {
    let a = ChainIdentity::empty().with_named(Iri::parse("urn:ctx:a").unwrap());
    let b = ChainIdentity::empty().with_named(Iri::parse("urn:ctx:b").unwrap());
    assert_ne!(a.fingerprint(), b.fingerprint());
    assert_eq!(a.fingerprint(), a.duplicate().fingerprint());
}

#[test]
fn entries_combine_in_order() {
    let parts = vec![
        Some(vec![SpaceEntry::new("urn:a", "a")]),
        None,
        Some(vec![SpaceEntry::new("urn:b", "b").with_origin("peer")]),
    ];
    let all = combine_entries(parts).expect("some member enumerates");
    let patterns: Vec<&str> = all.iter().map(|e| e.pattern.as_str()).collect();
    assert_eq!(patterns, ["urn:a", "urn:b"]);
    assert_eq!(all[1].origin.as_deref(), Some("peer"));
}
