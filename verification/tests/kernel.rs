use ikigai_core::iri::Iri;
use ikigai_core::kernel::{
    authorize, cache_text, cut_text, effective_expiry, entry_is_valid, inline_text, meta_target,
    require_cap, route, scheduler_text, split_types, storable, threads_text, ConstraintWindow,
    Generations, KernelRoute, CONSTRAINT_WINDOW,
};
use ikigai_core::kernel_ops::{description, op_entries, op_for_target, ops, required_scopes, KERNEL_NS};
use ikigai_core::verb::Verb;
use ikigai_core::kernel::{
    cut_on_write, kernel_op, KernelStep,
    action_types, actions_listing, catalog_listing, cut_thread, kernel_text, settle, KernelCache,
    KernelEntry,
};
use ikigai_core::ActionMatch;
use ikigai_core::sorted::StrSet;
use ikigai_core::Provenance;
use ikigai_core::{ArgRef, Capability, Error, Expiry, ReprType, Representation, Request, Time};

fn iri(s: &str) -> Iri {
    Iri::parse(s).unwrap()
}

#[test]
fn every_listed_op_describes_itself_with_a_safe_id() {
    for op in ops() {
        let description = description(op).expect("listed op has a description");
        assert!(description.validate().is_ok(), "`{op}` description is not IRI-safe");
        assert!(description.id.starts_with("kernel-"), "`{op}` id `{}` is not namespaced", description.id);
        assert!(description.verbs.contains(&Verb::Meta), "`{op}` must answer Meta");
        assert!(!description.title.is_empty() && !description.summary.is_empty(), "`{op}` needs a title and a summary");
    }
}

#[test]
fn the_space_enumerates_and_resolves_exactly_the_listed_ops() {
    let entries = op_entries();
    assert_eq!(entries.len(), ops().len());
    for entry in &entries {
        Iri::parse(&entry.pattern).expect("op patterns are exact IRIs");
        let resolved = op_for_target(&entry.pattern).expect("enumerated and resolved");
        assert_eq!(resolved.id, entry.endpoint);
    }
    for miss in ["urn:example:toUpper", "urn:kernel:nonesuch"] {
        assert!(op_for_target(miss).is_none(), "`{miss}` must not resolve in the kernel-op space");
    }
}

#[test]
fn meta_is_never_a_gated_action() {
    for op in ops() {
        assert!(required_scopes(op, Verb::Meta).is_empty(), "`{op}` declares a capability for Meta");
    }
}

#[test]
fn declared_scopes_are_what_the_kernel_enforces() {
    assert_eq!(required_scopes("cut", Verb::Sink), vec!["urn:cap:kernel:cut".to_string()]);
    assert_eq!(required_scopes("cache", Verb::Source), vec!["urn:cap:kernel:inspect".to_string()]);
    assert!(required_scopes("actions", Verb::Source).is_empty());
    assert!(required_scopes("nonesuch", Verb::Source).is_empty());
    let target = iri("urn:kernel:cut");
    assert_eq!(route("cut", Verb::Sink, &target).unwrap(), KernelRoute::Cut);
    let scoped = Capability::scoped(&["urn:cap:something:else"]);
    assert!(authorize(&scoped, KernelRoute::Cut).is_err());
    assert!(authorize(&Capability::root(), KernelRoute::Cut).is_ok());
    assert!(authorize(&scoped, KernelRoute::DescribeActions).is_ok());
}

#[test]
fn an_unserved_kernel_operation_is_unresolved() {
    let target = iri("urn:kernel:cut");
    match route("cut", Verb::Source, &target) {
        Err(Error::Unresolved(t)) => assert_eq!(t.as_str(), "urn:kernel:cut"),
        other => panic!("unexpected {other:?}"),
    }
    assert_eq!(KERNEL_NS, "urn:kernel:");
}

#[test]
fn the_capability_gate_names_the_missing_scope() {
    let scoped = Capability::scoped(&["a"]);
    match require_cap(&scoped, "urn:cap:kernel:cut") {
        Err(Error::Endpoint(m)) => assert_eq!(m, "kernel: capability does not grant `urn:cap:kernel:cut`"),
        other => panic!("unexpected {other:?}"),
    }
    assert!(require_cap(&scoped, "a").is_ok());
}

#[test]
fn cutting_a_thread_invalidates_the_entries_pinned_to_it() {
    let mut gens = Generations::new();
    let mut threads = ikigai_core::sorted::StrSet::new();
    threads.insert("urn:data:a");
    let edges = gens.edges_for(&threads);
    assert!(entry_is_valid(&gens, &edges, Expiry::Never, None));
    gens.cut("urn:data:b");
    assert!(entry_is_valid(&gens, &edges, Expiry::Never, None), "an unrelated cut spares it");
    gens.cut("urn:data:a");
    assert!(!entry_is_valid(&gens, &edges, Expiry::Never, None));
    assert_eq!(gens.generation_of("urn:data:a"), 1);
    assert_eq!(gens.generation_of("urn:data:never"), 0);
}

#[test]
fn a_deadline_needs_a_clock_reading_before_it() {
    let gens = Generations::new();
    let edges = Vec::new();
    let deadline = Expiry::At(Time::from_millis(100));
    assert!(entry_is_valid(&gens, &edges, deadline, Some(Time::from_millis(99))));
    assert!(!entry_is_valid(&gens, &edges, deadline, Some(Time::from_millis(100))));
    assert!(!entry_is_valid(&gens, &edges, deadline, None));
}

#[test]
fn only_cacheable_non_volatile_results_are_stored() {
    assert!(storable(true, Expiry::Never, false));
    assert!(!storable(true, Expiry::Always, true));
    assert!(!storable(false, Expiry::Never, true));
    assert!(storable(true, Expiry::At(Time::from_millis(5)), true));
    assert!(!storable(true, Expiry::At(Time::from_millis(5)), false));
}

#[test]
fn a_composite_is_no_fresher_than_its_parts() {
    let t1 = Expiry::At(Time::from_millis(10));
    let t2 = Expiry::At(Time::from_millis(20));
    assert_eq!(effective_expiry(Expiry::Never, Expiry::Never, None), Expiry::Never);
    assert_eq!(effective_expiry(Expiry::Never, t2, Some(t1)), t1);
    assert_eq!(effective_expiry(t1, Expiry::Never, Some(Expiry::Always)), Expiry::Always);
}

#[test]
fn the_kernel_namespace_reports_cut_threads_and_cache() {
    let mut gens = Generations::new();
    gens.cut("urn:data:a");
    gens.cut("urn:data:a");
    gens.cut("urn:data:b");
    let text = threads_text(&gens);
    assert!(text.contains("urn:data:a  gen 2"), "{text}");
    assert!(text.contains("urn:data:b  gen 1"), "{text}");
    assert_eq!(threads_text(&Generations::new()), "threads (cut generations)\n  (none cut)\n");
    assert!(cache_text(3).contains("entries"));
    assert_eq!(cache_text(3), "cache\n  entries  3\n");
    assert_eq!(cut_text("urn:data:x"), "cut urn:data:x\n");
}

#[test]
fn kernel_scheduler_resource_reports_the_injected_reporter_or_the_single_default() {
    let rows = vec![
        ("backend".to_string(), "pool:4".to_string()),
        ("threads".to_string(), "4".to_string()),
    ];
    let text = scheduler_text(Some(&rows));
    assert!(text.contains("backend") && text.contains("pool:4") && text.contains("threads  "), "{text}");
    assert_eq!(text, "scheduler\n  backend    pool:4\n  threads    4\n");
    assert!(scheduler_text(None).contains("backend    single"));
}

#[test]
fn kernel_constraint_resource_ranks_the_heaviest_uncached_target_first() {
    let mut window = ConstraintWindow::new();
    for _ in 0..3 {
        window.record("urn:test:heavy", None, false);
    }
    window.record("urn:test:light", None, false);
    let text = window.render();
    assert!(text.contains("last 4 resolutions"), "{text}");
    let heavy_pos = text.find("urn:test:heavy").expect("heavy listed");
    let light_pos = text.find("urn:test:light").expect("light listed");
    assert!(heavy_pos < light_pos, "heaviest target ranks first:\n{text}");
    let heavy_line_end = text[heavy_pos..].find('\n').map_or(text.len(), |i| heavy_pos + i);
    assert!(text[heavy_pos..heavy_line_end].contains("← constraint"), "leader flagged:\n{text}");
}

#[test]
fn the_constraint_readout_counts_time_and_cache_hits() {
    let mut window = ConstraintWindow::new();
    assert_eq!(window.render(), "constraint  (last 0 resolutions)\n  (no resolutions yet)\n");
    window.record("urn:a", Some(5), false);
    window.record("urn:a", Some(7), true);
    window.record("urn:b", Some(30), false);
    assert_eq!(
        window.render(),
        "constraint  (last 3 resolutions)\n  urn:b   ← constraint\n    30ms uncached · 1 calls · 0% cached\n  urn:a\n    5ms uncached · 2 calls · 50% cached\n"
    );
}

#[test]
fn the_window_keeps_only_the_most_recent_resolutions() {
    let mut window = ConstraintWindow::new();
    for _ in 0..(CONSTRAINT_WINDOW + 3) {
        window.record("urn:a", None, false);
    }
    assert_eq!(window.len(), CONSTRAINT_WINDOW);
}

#[test]
fn types_split_on_commas_and_whitespace() {
    assert_eq!(
        split_types("urn:a, urn:b\turn:c\n\n,urn:d"),
        vec!["urn:a", "urn:b", "urn:c", "urn:d"]
    );
    assert!(split_types(" , ").is_empty());
}

#[test]
fn a_meta_request_asks_for_turtle_unless_it_says_otherwise() {
    let plain = Request::new(Verb::Meta, iri("urn:x"));
    assert_eq!(meta_target(&plain).media_type(), "text/turtle");
    let asked = Request::new(Verb::Meta, iri("urn:x")).with_arg("as", ArgRef::Inline(b"text/plain".to_vec()));
    assert_eq!(meta_target(&asked).media_type(), "text/plain");
    assert_eq!(inline_text(&asked, "as").as_deref(), Some("text/plain"));
    let invalid = Request::new(Verb::Meta, iri("urn:x")).with_arg("as", ArgRef::Inline(vec![0xff]));
    assert_eq!(inline_text(&invalid, "as"), None);
    assert_eq!(meta_target(&invalid).media_type(), "text/turtle");
}

#[test]
fn the_selector_describes_its_types_input() {
    let d = ikigai_core::kernel::actions_description();
    assert_eq!(d.id, "kernel-actions");
    assert_eq!(d.inputs.len(), 1);
    assert_eq!(d.inputs[0].name, "types");
    assert!(d.inputs[0].required);
    assert_eq!(d.outputs, vec!["text/plain;charset=utf-8".to_string()]);
}

fn cache_key(target: &str) -> ikigai_core::CacheKey {
    ikigai_core::CacheKey::new(Request::new(Verb::Source, iri(target)).id(), 1)
}

#[test]
fn the_kernel_cache_serves_what_it_stored_until_a_thread_is_cut() {
    let mut gens = Generations::new();
    let mut cache = KernelCache::new();
    let rep = Representation::new(ReprType::new("text/plain"), b"v".to_vec()).cacheable().depends_on("urn:t:a");
    let edges = gens.edges_for(rep.threads());
    cache.insert(cache_key("urn:x:1"), KernelEntry { representation: rep, edges });
    assert!(cache.probe(&cache_key("urn:x:1"), &gens, None));
    assert_eq!(cache.serve(&cache_key("urn:x:1"), &gens, None).unwrap().bytes, b"v");
    assert!(cache.serve(&cache_key("urn:x:2"), &gens, None).is_none());
    assert_eq!(cache.len(), 1);
    gens.cut("urn:t:a");
    assert!(!cache.probe(&cache_key("urn:x:1"), &gens, None));
    assert!(cache.serve(&cache_key("urn:x:1"), &gens, None).is_none());
    assert_eq!(cache.len(), 0, "a stale entry is evicted when found");
}

#[test]
fn storing_under_a_key_again_replaces_the_entry() {
    let gens = Generations::new();
    let mut cache = KernelCache::new();
    for body in [b"a", b"b"] {
        let rep = Representation::new(ReprType::new("text/plain"), body.to_vec()).cacheable();
        cache.insert(cache_key("urn:x:1"), KernelEntry { representation: rep, edges: Vec::new() });
    }
    assert_eq!(cache.len(), 1);
    assert_eq!(cache.serve(&cache_key("urn:x:1"), &gens, None).unwrap().bytes, b"b");
}

#[test]
fn a_settled_result_carries_every_part_s_threads_and_the_strictest_expiry() {
    let own = Representation::new(ReprType::new("text/plain"), b"v".to_vec())
        .cacheable()
        .depends_on("urn:t:own");
    let mut deps = StrSet::new();
    deps.insert("urn:t:dep");
    let mut upstream = StrSet::new();
    upstream.insert("urn:t:pipe");
    let incoming = Provenance::new(Expiry::At(Time::from_millis(50)), upstream);
    let settled = settle(own, Expiry::At(Time::from_millis(80)), &deps, Some(&incoming));
    assert_eq!(settled.bytes, b"v");
    assert_eq!(settled.expiry, Expiry::At(Time::from_millis(50)));
    assert_eq!(settled.threads().to_vec(), vec!["urn:t:dep", "urn:t:own", "urn:t:pipe"]);

    let plain = Representation::new(ReprType::new("text/plain"), b"w".to_vec()).cacheable();
    let settled = settle(plain, Expiry::Never, &StrSet::new(), None);
    assert_eq!(settled.expiry, Expiry::Never);
    assert!(settled.threads().to_vec().is_empty());
}

#[test]
fn a_cut_names_its_thread_argument_or_else_the_sunk_content() {
    let both = Request::new(Verb::Sink, iri("urn:kernel:cut"))
        .with_arg("thread", ArgRef::Inline(b"urn:t:a".to_vec()))
        .with_arg("content", ArgRef::Inline(b"urn:t:b".to_vec()));
    assert_eq!(cut_thread(&both).unwrap(), "urn:t:a");
    let sunk = Request::new(Verb::Sink, iri("urn:kernel:cut")).with_arg("content", ArgRef::Inline(b"urn:t:b".to_vec()));
    assert_eq!(cut_thread(&sunk).unwrap(), "urn:t:b");
    match cut_thread(&Request::new(Verb::Sink, iri("urn:kernel:cut"))) {
        Err(Error::MissingArgument(name)) => assert_eq!(name, "thread"),
        other => panic!("expected a missing argument, got {other:?}"),
    }
}

#[test]
fn the_actions_readout_lists_one_endpoint_per_line() {
    let asked = Request::new(Verb::Source, iri("urn:kernel:actions"))
        .with_arg("types", ArgRef::Inline(b"urn:c:a, urn:c:b".to_vec()));
    assert_eq!(action_types(&asked).unwrap(), vec!["urn:c:a", "urn:c:b"]);
    match action_types(&Request::new(Verb::Source, iri("urn:kernel:actions"))) {
        Err(Error::MissingArgument(name)) => assert_eq!(name, "types"),
        other => panic!("expected a missing argument, got {other:?}"),
    }
    let m = |endpoint: &str| ActionMatch {
        endpoint: endpoint.to_string(),
        id: "x".to_string(),
        verb: Verb::Source,
        action: "urn:a".to_string(),
        requires: vec![],
        missing_optional: 0,
    };
    let listing = actions_listing(&[m("urn:e:one"), m("urn:e:two")]);
    assert_eq!(listing.bytes, b"urn:e:one\nurn:e:two\n");
    assert_eq!(listing.expiry, Expiry::Never);
    assert_eq!(listing.repr_type.canonical(), "text/plain;charset=utf-8");
}

#[test]
fn the_catalog_closes_each_description_with_one_newline() {
    let catalog = catalog_listing(&["<urn:a> a ik:Endpoint .\n\n".to_string(), "<urn:b> a ik:Endpoint .".to_string()]);
    assert_eq!(catalog.bytes, b"<urn:a> a ik:Endpoint .\n<urn:b> a ik:Endpoint .\n");
    assert_eq!(catalog.expiry, Expiry::Never);
    assert_eq!(catalog.repr_type.canonical(), "text/turtle;charset=utf-8");
    let live = kernel_text("cache\n");
    assert_eq!(live.bytes, b"cache\n");
    assert_eq!(live.expiry, Expiry::Always);
}

#[test]
fn a_refused_kernel_operation_changes_nothing() {
    let mut gens = Generations::new();
    let cut = Request::new(Verb::Sink, iri("urn:kernel:cut")).with_arg("thread", ArgRef::Inline(b"urn:t:a".to_vec()));
    let scoped = Capability::scoped(&["urn:cap:kernel:inspect"]);
    match kernel_op("cut", &cut, &scoped, &mut gens) {
        Err(Error::Endpoint(m)) => assert_eq!(m, "kernel: capability does not grant `urn:cap:kernel:cut`"),
        other => panic!("expected a refusal, got {other:?}"),
    }
    assert!(gens.is_empty());
    let read = Request::new(Verb::Source, iri("urn:kernel:cache"));
    match kernel_op("cache", &read, &Capability::scoped(&["urn:cap:kernel:cut"]), &mut gens) {
        Err(Error::Endpoint(m)) => assert_eq!(m, "kernel: capability does not grant `urn:cap:kernel:inspect`"),
        other => panic!("expected a refusal, got {other:?}"),
    }
    assert!(gens.is_empty());
}

#[test]
fn a_permitted_cut_changes_exactly_the_named_thread() {
    let mut gens = Generations::new();
    gens.cut("urn:t:b");
    let cut = Request::new(Verb::Sink, iri("urn:kernel:cut")).with_arg("content", ArgRef::Inline(b"urn:t:a".to_vec()));
    match kernel_op("cut", &cut, &Capability::root(), &mut gens) {
        Ok(KernelStep::Done(rep)) => {
            assert_eq!(rep.bytes, b"cut urn:t:a\n");
            assert_eq!(rep.expiry, Expiry::Always);
        }
        other => panic!("expected a cut, got {other:?}"),
    }
    assert_eq!(gens.generation_of("urn:t:a"), 1);
    assert_eq!(gens.generation_of("urn:t:b"), 1);
    let bare = Request::new(Verb::Sink, iri("urn:kernel:cut"));
    match kernel_op("cut", &bare, &Capability::root(), &mut gens) {
        Err(Error::MissingArgument(name)) => assert_eq!(name, "thread"),
        other => panic!("expected a missing argument, got {other:?}"),
    }
    assert_eq!(gens.generation_of("urn:t:a"), 1);
    let read = Request::new(Verb::Source, iri("urn:kernel:threads"));
    assert!(matches!(kernel_op("threads", &read, &Capability::root(), &mut gens), Ok(KernelStep::Read(KernelRoute::Threads))));
    let unknown = Request::new(Verb::Source, iri("urn:kernel:nope"));
    assert!(matches!(kernel_op("nope", &unknown, &Capability::root(), &mut gens), Err(Error::Unresolved(_))));
}

#[test]
fn a_mutating_request_cuts_its_target_and_a_read_does_not() {
    let mut gens = Generations::new();
    cut_on_write(Verb::Source, &iri("urn:data:x"), &mut gens);
    assert_eq!(gens.generation_of("urn:data:x"), 0);
    cut_on_write(Verb::Sink, &iri("urn:data:x"), &mut gens);
    assert_eq!(gens.generation_of("urn:data:x"), 1);
    cut_on_write(Verb::Delete, &iri("urn:data:x"), &mut gens);
    assert_eq!(gens.generation_of("urn:data:x"), 2);
}
