use ikigai_core::iri::Iri;
use ikigai_core::{AliasTable, Canonical};

fn iri(s: &str) -> Iri {
    Iri::parse(s).unwrap()
}

#[test]
fn a_prefix_rule_carries_the_remainder_over() {
    let mut table = AliasTable::new().prefix("urn:fn:", "urn:iki:fn:");
    let canonical = table.canonicalize(&iri("urn:fn:toUpper"));
    assert_eq!(canonical.canonical().map(Iri::as_str), Some("urn:iki:fn:toUpper"));
    assert_eq!(table.rules()[0].hops(), 1);
}

#[test]
fn an_exact_rule_rewrites_only_the_whole_name() {
    let mut table = AliasTable::new().exact("urn:log:config", "file:/logConfig.yaml");
    assert_eq!(
        table.canonicalize(&iri("urn:log:config")).canonical().map(Iri::as_str),
        Some("file:/logConfig.yaml")
    );
    assert!(matches!(table.canonicalize(&iri("urn:log:config:extra")), Canonical::Direct));
}

#[test]
fn the_most_specific_rule_wins_regardless_of_declaration_order() {
    let mut table = AliasTable::new()
        .prefix("urn:fn:", "urn:iki:fn:")
        .exact("urn:fn:toUpper", "urn:legacy:upper");
    assert_eq!(
        table.canonicalize(&iri("urn:fn:toUpper")).canonical().map(Iri::as_str),
        Some("urn:legacy:upper")
    );
    assert_eq!(
        table.canonicalize(&iri("urn:fn:reverseList")).canonical().map(Iri::as_str),
        Some("urn:iki:fn:reverseList")
    );
}

#[test]
fn a_chain_resolves_transitively() {
    let mut table = AliasTable::new().prefix("urn:a:", "urn:b:").prefix("urn:b:", "urn:c:");
    let canonical = table.canonicalize(&iri("urn:a:thing"));
    assert_eq!(canonical.canonical().map(Iri::as_str), Some("urn:c:thing"));
    assert_eq!(canonical.hop().unwrap().rules().len(), 2);
}

#[test]
fn a_cycle_is_refused_not_truncated() {
    let mut table = AliasTable::new().prefix("urn:a:", "urn:b:").prefix("urn:b:", "urn:a:");
    let Canonical::Refused(refusal) = table.canonicalize(&iri("urn:a:thing")) else {
        panic!("a cycle must be refused");
    };
    assert_eq!(refusal.reason, "alias cycle");
    assert_eq!(refusal.trail, ["urn:a:thing", "urn:b:thing", "urn:a:thing"]);
    assert!(table.rules().iter().any(|rule| rule.refused() > 0));
}

#[test]
fn an_over_long_chain_is_refused() {
    let mut table = AliasTable::new().prefix("urn:a:", "urn:a:x").with_max_hops(3);
    let Canonical::Refused(refusal) = table.canonicalize(&iri("urn:a:thing")) else {
        panic!("an unbounded chain must be refused");
    };
    assert!(refusal.reason.contains("exceeded 3 hops"), "{}", refusal.to_string());
}

#[test]
fn the_kernel_namespace_is_not_aliasable() {
    let mut table = AliasTable::new().prefix("urn:kernel:", "urn:iki:kernel:");
    assert!(matches!(table.canonicalize(&iri("urn:kernel:cut")), Canonical::Direct));
}

#[test]
fn an_unmatched_name_costs_nothing_and_reports_direct() {
    let mut table = AliasTable::new().prefix("urn:fn:", "urn:iki:fn:");
    assert!(matches!(table.canonicalize(&iri("urn:text:wc")), Canonical::Direct));
    assert_eq!(table.rules()[0].hops(), 0);
}

#[test]
fn the_table_round_trips_through_its_text_form() {
    let text = "# comment\nprefix urn:fn: urn:iki:fn:\nexact urn:log:config file:/logConfig.yaml\nmax-hops 3\n";
    let table = AliasTable::parse(text).unwrap();
    assert_eq!(table.max_hops(), 3);
    let again = AliasTable::parse(&table.to_text()).unwrap();
    assert_eq!(again.to_text(), table.to_text());
    assert_eq!(again.max_hops(), 3);
}

#[test]
fn a_malformed_table_fails_when_it_is_read() {
    let err = AliasTable::parse("prefix not-an-iri urn:iki:fn:").unwrap_err();
    assert_eq!(err.line, 1);
    assert!(err.detail.contains("from"), "{}", err.to_string());
    assert!(AliasTable::parse("rewrite a b").is_err());
    assert!(AliasTable::parse("max-hops lots").is_err());
}

#[test]
fn stale_scope_hints_name_grants_that_did_not_migrate() {
    let table = AliasTable::new().prefix("urn:fs:", "urn:iki:fs:");
    let held = [
        "urn:cap:fs:read:urn:fs:ws/x".to_string(),
        "urn:cap:kernel:inspect".to_string(),
    ];
    assert_eq!(
        table.scopes_naming_stale_namespaces(&held),
        ["urn:cap:fs:read:urn:fs:ws/x"]
    );
}

// A canonical name is a fixed point: canonicalizing it again changes nothing.
#[test]
fn a_canonical_name_canonicalizes_to_itself() {
    let mut table = AliasTable::new().prefix("urn:a:", "urn:b:").prefix("urn:b:", "urn:c:");
    let first = table.canonicalize(&iri("urn:a:thing"));
    let canonical = first.canonical().unwrap().duplicate();
    assert!(matches!(table.canonicalize(&canonical), Canonical::Direct));
}

// Declaration order does not change the outcome.
#[test]
fn declaration_order_is_irrelevant() {
    let mut one = AliasTable::new().prefix("urn:fn:", "urn:iki:fn:").exact("urn:fn:x", "urn:y:z");
    let mut two = AliasTable::new().exact("urn:fn:x", "urn:y:z").prefix("urn:fn:", "urn:iki:fn:");
    for name in ["urn:fn:x", "urn:fn:other", "urn:q:r"] {
        let a = one.canonicalize(&iri(name));
        let b = two.canonicalize(&iri(name));
        assert_eq!(a.canonical().map(Iri::as_str), b.canonical().map(Iri::as_str));
    }
    assert_eq!(one.to_text(), two.to_text());
}

#[test]
fn a_parse_error_names_its_line() {
    let err = AliasTable::parse("prefix urn:a: urn:b:\nbogus line here").unwrap_err();
    assert_eq!(err.line, 2);
    assert!(err.to_string().starts_with("alias table line 2: "), "{}", err.to_string());
}

#[test]
fn a_refused_rewrite_answers_with_its_trail() {
    let mut table = AliasTable::new().prefix("urn:a:", "urn:b:").prefix("urn:b:", "urn:a:");
    let Canonical::Refused(refusal) = table.canonicalize(&iri("urn:a:thing")) else {
        panic!("a cycle must be refused");
    };
    assert_eq!(refusal.message(), "alias: alias cycle (urn:a:thing -> urn:b:thing -> urn:a:thing)");
    let description = refusal.description();
    assert_eq!(description.id, "alias-refused");
    assert_eq!(description.title, "Alias rewrite refused");
    assert_eq!(description.summary, refusal.message());
}

#[test]
fn one_rewrite_fits_a_one_hop_budget() {
    let mut table = AliasTable::new().prefix("urn:fn:", "urn:iki:fn:").with_max_hops(1);
    assert_eq!(table.max_hops(), 1);
    let canonical = table.canonicalize(&iri("urn:fn:toUpper"));
    assert_eq!(canonical.canonical().map(Iri::as_str), Some("urn:iki:fn:toUpper"));
    assert_eq!(table.rules()[0].hops(), 1);
    assert_eq!(table.rules()[0].refused(), 0);
}

#[test]
fn a_refusal_counts_once_per_participating_rule() {
    let mut table = AliasTable::new().prefix("urn:a:", "urn:a:x").with_max_hops(3);
    let Canonical::Refused(refusal) = table.canonicalize(&iri("urn:a:thing")) else {
        panic!("an unbounded chain must be refused");
    };
    assert!(refusal.reason.contains("exceeded 3 hops"));
    assert_eq!(table.rules()[0].hops(), 0);
    assert_eq!(table.rules()[0].refused(), 1);
}
