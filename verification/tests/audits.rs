use cargo_vet::audit_graph::{AuditGraph, SearchFailure, ViolationConflict};
use cargo_vet::criteria::CriteriaMapper;
use cargo_vet::directed::DirectedAuditGraph;
use cargo_vet::edges::{DeltaEdge, DeltaEdgeFreshness, DeltaEdgeOrigin, SearchMode};
use cargo_vet::records::{
    AuditEntry, AuditKind, AuditsFile, ConfigFile, CratesPublisher, CratesSourceId, CriteriaEntry,
    ExemptedDependency, ImportsFile, RootPolicy, Store, TrustEntry, UnpublishedEntry, VersionReq,
    WildcardEntry,
};
use cargo_vet::search::search_for_path;
use cargo_vet::sorted_map::SortedMap;
use cargo_vet::version::{Version, VetVersion};

const PKG: &str = "third-party";

fn ver(major: u64) -> VetVersion {
    VetVersion {
        semver: Version { major, minor: 0, patch: 0, pre: vec![], build: vec![] },
        git_rev: None,
    }
}

fn names(list: &[&str]) -> Vec<String> {
    list.iter().map(|s| s.to_string()).collect()
}

fn audit(kind: AuditKind, criteria: &[&str]) -> AuditEntry {
    AuditEntry {
        who: vec![],
        criteria: names(criteria),
        kind,
        importable: true,
        notes: None,
        aggregated_from: vec![],
        is_fresh_import: false,
    }
}

fn full(version: u64, criteria: &[&str]) -> AuditEntry {
    audit(AuditKind::Full { version: ver(version) }, criteria)
}

fn delta(from: u64, to: u64, criteria: &[&str]) -> AuditEntry {
    audit(AuditKind::Delta { from: ver(from), to: ver(to) }, criteria)
}

fn violation(range: &str, criteria: &[&str]) -> AuditEntry {
    audit(
        AuditKind::Violation { violation: VersionReq { text: range.to_string() } },
        criteria,
    )
}

fn exemption(version: u64, criteria: &[&str]) -> ExemptedDependency {
    ExemptedDependency {
        version: ver(version),
        criteria: names(criteria),
        suggest: true,
        notes: None,
    }
}

fn user(user_id: u64) -> CratesSourceId {
    CratesSourceId::User { user_id }
}

fn wildcard(user_id: u64, start: u64, end: u64) -> WildcardEntry {
    WildcardEntry {
        who: vec![],
        criteria: names(&["safe-to-deploy"]),
        source: user(user_id),
        start,
        end,
        renew: None,
        notes: None,
        aggregated_from: vec![],
        is_fresh_import: false,
    }
}

fn release(version: u64, when: u64, user_id: u64) -> CratesPublisher {
    CratesPublisher { version: ver(version), when, source: user(user_id), is_fresh_import: false }
}

fn no_audits() -> AuditsFile {
    AuditsFile {
        criteria: SortedMap::new(),
        wildcard_audits: SortedMap::new(),
        audits: SortedMap::new(),
        trusted: SortedMap::new(),
    }
}

fn empty_store() -> Store {
    Store {
        config: ConfigFile {
            root_policy: RootPolicy { criteria: None, dev_criteria: None },
            policy: SortedMap::new(),
            exemptions: SortedMap::new(),
        },
        audits: no_audits(),
        imports: ImportsFile {
            unpublished: SortedMap::new(),
            publisher: SortedMap::new(),
            audits: SortedMap::new(),
        },
        live_imports: None,
    }
}

fn store_with(audits: Vec<AuditEntry>) -> Store {
    let mut store = empty_store();
    store.audits.audits.insert(PKG.to_string(), audits);
    store
}

fn mapper(store: &Store) -> CriteriaMapper {
    CriteriaMapper::new(&store.audits.criteria)
}

fn index(m: &CriteriaMapper, name: &str) -> usize {
    m.names.iter().position(|n| n == name).unwrap()
}

fn search(
    store: &Store,
    criterion: &str,
    version: u64,
    mode: SearchMode,
) -> Result<Vec<DeltaEdgeOrigin>, SearchFailure> {
    let m = mapper(store);
    let graph = AuditGraph::build(store, &m, PKG, None).unwrap();
    graph.search(index(&m, criterion), &ver(version), mode)
}

fn conflicts(store: &Store) -> Vec<ViolationConflict> {
    match AuditGraph::build(store, &mapper(store), PKG, None) {
        Ok(_) => vec![],
        Err(list) => list,
    }
}

fn local(audit_index: usize) -> DeltaEdgeOrigin {
    DeltaEdgeOrigin::StoredLocalAudit { audit_index, importable: true }
}

#[test]
fn a_full_audit_vets_its_version() {
    let store = store_with(vec![full(10, &["safe-to-deploy"])]);
    assert_eq!(
        search(&store, "safe-to-deploy", 10, SearchMode::PreferExemptions),
        Ok(vec![local(0)])
    );
    // What a criterion implies is met too.
    assert_eq!(
        search(&store, "safe-to-run", 10, SearchMode::PreferExemptions),
        Ok(vec![local(0)])
    );
}

#[test]
fn deltas_lead_from_the_target_to_the_root() {
    let store = store_with(vec![
        delta(5, 10, &["safe-to-deploy"]),
        delta(3, 5, &["safe-to-deploy"]),
        full(3, &["safe-to-deploy"]),
    ]);
    assert_eq!(
        search(&store, "safe-to-deploy", 10, SearchMode::PreferExemptions),
        Ok(vec![local(0), local(1), local(2)])
    );
}

#[test]
fn audits_for_less_do_not_count_for_more() {
    let store = store_with(vec![full(10, &["safe-to-run"])]);
    assert_eq!(
        search(&store, "safe-to-deploy", 10, SearchMode::PreferExemptions),
        Err(SearchFailure {
            reachable_from_root: vec![None],
            reachable_from_target: vec![Some(ver(10))],
        })
    );
    assert!(search(&store, "safe-to-run", 10, SearchMode::PreferExemptions).is_ok());
}

#[test]
fn a_failed_search_lists_what_both_ends_reach() {
    let store = store_with(vec![
        full(4, &["safe-to-deploy"]),
        delta(4, 3, &["safe-to-deploy"]),
        delta(7, 10, &["safe-to-deploy"]),
        delta(6, 7, &["safe-to-deploy"]),
        full(2, &["safe-to-run"]),
    ]);
    assert_eq!(
        search(&store, "safe-to-deploy", 10, SearchMode::PreferExemptions),
        Err(SearchFailure {
            reachable_from_root: vec![None, Some(ver(3)), Some(ver(4))],
            reachable_from_target: vec![Some(ver(6)), Some(ver(7)), Some(ver(10))],
        })
    );
}

#[test]
fn an_audit_that_connects_the_two_sides_heals() {
    let mut audits = vec![
        full(4, &["safe-to-deploy"]),
        delta(7, 10, &["safe-to-deploy"]),
    ];
    assert!(search(
        &store_with(audits.clone()),
        "safe-to-deploy",
        10,
        SearchMode::PreferExemptions
    )
    .is_err());
    // Audits that do not connect them, or are for less, do not.
    for other in [
        delta(4, 8, &["safe-to-deploy"]),
        delta(3, 7, &["safe-to-deploy"]),
        delta(4, 7, &["safe-to-run"]),
    ] {
        let mut more = audits.clone();
        more.push(other);
        assert!(search(
            &store_with(more),
            "safe-to-deploy",
            10,
            SearchMode::PreferExemptions
        )
        .is_err());
    }
    audits.push(delta(4, 7, &["safe-to-deploy"]));
    assert_eq!(
        search(&store_with(audits), "safe-to-deploy", 10, SearchMode::PreferExemptions),
        Ok(vec![local(1), local(2), local(0)])
    );
}

#[test]
fn cycles_end() {
    let store = store_with(vec![
        delta(9, 10, &["safe-to-deploy"]),
        delta(10, 9, &["safe-to-deploy"]),
    ]);
    assert_eq!(
        search(&store, "safe-to-deploy", 10, SearchMode::PreferFreshImports),
        Err(SearchFailure {
            reachable_from_root: vec![None],
            reachable_from_target: vec![Some(ver(9)), Some(ver(10))],
        })
    );
}

#[test]
fn violations_speak_against_audits() {
    // A violation of the audited criterion.
    let store = store_with(vec![
        violation("^10.0.0", &["safe-to-deploy"]),
        full(10, &["safe-to-deploy"]),
    ]);
    assert_eq!(
        conflicts(&store),
        vec![ViolationConflict::AuditConflict {
            violation_source: None,
            violation: violation("^10.0.0", &["safe-to-deploy"]),
            audit_source: None,
            audit: full(10, &["safe-to-deploy"]),
        }]
    );
    // A violation of more than was audited.
    let store = store_with(vec![
        violation("*", &["safe-to-deploy"]),
        full(10, &["safe-to-run"]),
    ]);
    assert_eq!(conflicts(&store), vec![]);
    // A violation of less than was audited.
    let store = store_with(vec![
        violation("*", &["safe-to-run"]),
        full(10, &["safe-to-deploy"]),
    ]);
    assert_eq!(conflicts(&store).len(), 1);
    // Each criterion of a violation counts by itself.
    let mut store = store_with(vec![violation("*", &["a", "b"]), full(10, &["a", "c"])]);
    for name in ["a", "b", "c"] {
        store.audits.criteria.insert(
            name.to_string(),
            CriteriaEntry { description: None, implies: vec![] },
        );
    }
    assert_eq!(conflicts(&store).len(), 1);
}

#[test]
fn violations_speak_against_both_ends_of_a_delta() {
    for range in ["^5.0.0", "^10.0.0"] {
        let store = store_with(vec![
            delta(5, 10, &["safe-to-deploy"]),
            violation(range, &["safe-to-deploy"]),
        ]);
        assert_eq!(conflicts(&store).len(), 1);
    }
    let store = store_with(vec![
        delta(5, 10, &["safe-to-deploy"]),
        violation("^7.0.0", &["safe-to-deploy"]),
        violation("^10.0.0", &["safe-to-deploy"]),
    ]);
    assert_eq!(conflicts(&store).len(), 1);
}

#[test]
fn violations_speak_against_exemptions() {
    let mut store = empty_store();
    let mut peer = no_audits();
    peer.audits.insert(PKG.to_string(), vec![violation(">=10", &["safe-to-deploy"])]);
    store.imports.audits.insert("peer".to_string(), peer);
    store.config.exemptions.insert(
        PKG.to_string(),
        vec![exemption(9, &["safe-to-deploy"]), exemption(10, &["safe-to-deploy"])],
    );
    assert_eq!(
        conflicts(&store),
        vec![ViolationConflict::UnauditedConflict {
            violation_source: Some("peer".to_string()),
            violation: violation(">=10", &["safe-to-deploy"]),
            exemptions: exemption(10, &["safe-to-deploy"]),
        }]
    );
}

#[test]
fn requirements_are_read_as_cargo_reads_them() {
    let req = |text: &str| VersionReq { text: text.to_string() };
    assert!(req("10").matches(&ver(10)));
    assert!(req("^10.0.0").matches(&ver(10)));
    assert!(!req("^10.0.0").matches(&ver(11)));
    assert!(req(">=1, <10").matches(&ver(9)));
    assert!(!req(">=1, <10").matches(&ver(10)));
    assert!(!req("no requirement").matches(&ver(10)));
    // A Git revision counts as the version that it is based on.
    let mut v = ver(10);
    v.git_rev = Some("00112233445566778899aabbccddeeff00112233".to_string());
    assert!(req("=10.0.0").matches(&v));
    // A pre-release is only in a range that asks for one.
    let mut v = ver(10);
    v.semver.pre = names(&["alpha", "1"]);
    assert!(!req(">=9").matches(&v));
    assert!(req(">=10.0.0-alpha").matches(&v));
}

#[test]
fn modes_prefer_exemptions_or_fresh_imports() {
    let mut store = empty_store();
    let mut peer = no_audits();
    let mut fresh = full(10, &["safe-to-deploy"]);
    fresh.is_fresh_import = true;
    peer.audits.insert(PKG.to_string(), vec![fresh]);
    store.imports.audits.insert("peer".to_string(), peer);
    store.config.exemptions.insert(PKG.to_string(), vec![exemption(10, &["safe-to-deploy"])]);
    assert_eq!(
        search(&store, "safe-to-deploy", 10, SearchMode::PreferExemptions),
        Ok(vec![DeltaEdgeOrigin::Exemption { exemption_index: 0 }])
    );
    for mode in [SearchMode::PreferFreshImports, SearchMode::RegenerateExemptions] {
        assert_eq!(
            search(&store, "safe-to-deploy", 10, mode),
            Ok(vec![DeltaEdgeOrigin::ImportedAudit { import_index: 0, audit_index: 0 }])
        );
    }
}

#[test]
fn a_path_with_less_caveats_is_found() {
    let mut hidden = full(10, &["safe-to-deploy"]);
    hidden.importable = false;
    let mut store = store_with(vec![
        hidden,
        delta(9, 10, &["safe-to-deploy"]),
        full(9, &["safe-to-deploy"]),
    ]);
    store.config.exemptions.insert(PKG.to_string(), vec![exemption(10, &["safe-to-deploy"])]);
    // Two audits that others may use are better than one that they may not, and
    // that is better than an exemption.
    assert_eq!(
        search(&store, "safe-to-deploy", 10, SearchMode::PreferExemptions),
        Ok(vec![local(1), local(2)])
    );
    let mut hidden = full(10, &["safe-to-deploy"]);
    hidden.importable = false;
    store.audits.audits.insert(PKG.to_string(), vec![hidden]);
    assert_eq!(
        search(&store, "safe-to-deploy", 10, SearchMode::PreferExemptions),
        Ok(vec![DeltaEdgeOrigin::StoredLocalAudit { audit_index: 0, importable: false }])
    );
}

#[test]
fn small_exemptions_are_preferred() {
    let mut store = store_with(vec![delta(5, 10, &["safe-to-deploy"])]);
    store.config.exemptions.insert(
        PKG.to_string(),
        vec![exemption(10, &["safe-to-deploy"]), exemption(5, &["safe-to-deploy"])],
    );
    assert_eq!(
        search(&store, "safe-to-deploy", 10, SearchMode::PreferExemptions),
        Ok(vec![local(0), DeltaEdgeOrigin::Exemption { exemption_index: 1 }])
    );
}

#[test]
fn regenerating_exemptions_cannot_fail() {
    let store = store_with(vec![delta(5, 10, &["safe-to-deploy"])]);
    assert_eq!(
        search(&store, "safe-to-deploy", 10, SearchMode::RegenerateExemptions),
        Ok(vec![local(0), DeltaEdgeOrigin::FreshExemption { version: ver(5) }])
    );
    assert_eq!(
        search(&empty_store(), "safe-to-deploy", 10, SearchMode::RegenerateExemptions),
        Ok(vec![DeltaEdgeOrigin::FreshExemption { version: ver(10) }])
    );
    // An exemption is extended rather than that another one is added.
    let mut store = empty_store();
    store.config.exemptions.insert(PKG.to_string(), vec![exemption(10, &["safe-to-run"])]);
    assert_eq!(
        search(&store, "safe-to-deploy", 10, SearchMode::RegenerateExemptions),
        Ok(vec![DeltaEdgeOrigin::Exemption { exemption_index: 0 }])
    );
}

#[test]
fn wildcard_audits_cover_a_period() {
    let mut store = empty_store();
    store.audits.wildcard_audits.insert(PKG.to_string(), vec![wildcard(7, 100, 200)]);
    store.imports.publisher.insert(
        PKG.to_string(),
        vec![
            release(1, 99, 7),
            release(2, 100, 7),
            release(3, 199, 7),
            release(4, 200, 7),
            release(5, 150, 8),
        ],
    );
    let found = |v: u64| search(&store, "safe-to-deploy", v, SearchMode::PreferExemptions).ok();
    let path = |publisher_index: usize| {
        Some(vec![DeltaEdgeOrigin::WildcardAudit {
            import_index: None,
            audit_index: 0,
            publisher_index,
        }])
    };
    assert_eq!(found(1), None);
    assert_eq!(found(2), path(1));
    assert_eq!(found(3), path(2));
    assert_eq!(found(4), None);
    assert_eq!(found(5), None);
}

#[test]
fn own_wildcard_audits_are_preferred() {
    let mut store = empty_store();
    let mut peer = no_audits();
    peer.wildcard_audits.insert(PKG.to_string(), vec![wildcard(7, 100, 200)]);
    store.imports.audits.insert("peer".to_string(), peer);
    store.imports.publisher.insert(PKG.to_string(), vec![release(10, 150, 7)]);
    let path = |import_index: Option<usize>| {
        Ok(vec![DeltaEdgeOrigin::WildcardAudit {
            import_index,
            audit_index: 0,
            publisher_index: 0,
        }])
    };
    assert_eq!(search(&store, "safe-to-deploy", 10, SearchMode::PreferExemptions), path(Some(0)));
    store.audits.wildcard_audits.insert(PKG.to_string(), vec![wildcard(7, 100, 200)]);
    assert_eq!(search(&store, "safe-to-deploy", 10, SearchMode::PreferExemptions), path(None));
}

#[test]
fn trusted_sources_cover_their_releases() {
    let trusted = |source: CratesSourceId| TrustEntry {
        criteria: names(&["safe-to-run"]),
        source,
        start: 100,
        end: 200,
        notes: None,
        aggregated_from: vec![],
    };
    let github = || CratesSourceId::TrustedPublisher { publisher: "github:repo".to_string() };
    let mut store = empty_store();
    store.audits.trusted.insert(PKG.to_string(), vec![trusted(user(7)), trusted(github())]);
    let mut other = release(2, 150, 0);
    other.source = github();
    store.imports.publisher.insert(PKG.to_string(), vec![release(1, 150, 7), other]);
    for v in [1, 2] {
        assert_eq!(
            search(&store, "safe-to-run", v, SearchMode::PreferExemptions),
            Ok(vec![DeltaEdgeOrigin::Trusted { publisher_index: v as usize - 1 }])
        );
        assert!(search(&store, "safe-to-deploy", v, SearchMode::PreferExemptions).is_err());
    }
}

#[test]
fn unpublished_entries_stand_for_a_published_version() {
    let mut store = store_with(vec![full(9, &["safe-to-run"])]);
    let entry = |is_fresh_import: bool| UnpublishedEntry {
        version: ver(10),
        audited_as: ver(9),
        still_unpublished: true,
        is_fresh_import,
    };
    store.imports.unpublished.insert(PKG.to_string(), vec![entry(false), entry(true)]);
    let path = |unpublished_index: usize| {
        Ok(vec![DeltaEdgeOrigin::Unpublished { unpublished_index }, local(0)])
    };
    assert_eq!(search(&store, "safe-to-run", 10, SearchMode::PreferExemptions), path(0));
    assert_eq!(search(&store, "safe-to-run", 10, SearchMode::PreferFreshImports), path(1));
    assert!(search(&store, "safe-to-deploy", 10, SearchMode::PreferExemptions).is_err());
}

#[test]
fn fetched_imports_are_used_in_place_of_stored_ones() {
    let mut store = empty_store();
    let mut peer = no_audits();
    peer.audits.insert(PKG.to_string(), vec![full(10, &["safe-to-deploy"])]);
    let mut live = empty_store().imports;
    live.audits.insert("peer".to_string(), peer);
    assert!(search(&store, "safe-to-deploy", 10, SearchMode::PreferExemptions).is_err());
    store.live_imports = Some(live);
    assert_eq!(
        search(&store, "safe-to-deploy", 10, SearchMode::PreferExemptions),
        Ok(vec![DeltaEdgeOrigin::ImportedAudit { import_index: 0, audit_index: 0 }])
    );
}

#[test]
fn extra_audits_count_as_own_ones() {
    let store = empty_store();
    let m = mapper(&store);
    let mut extra = no_audits();
    extra.audits.insert(PKG.to_string(), vec![full(10, &["safe-to-deploy"])]);
    let graph = AuditGraph::build(&store, &m, PKG, Some(&extra)).unwrap();
    assert_eq!(
        graph.search(index(&m, "safe-to-deploy"), &ver(10), SearchMode::PreferExemptions),
        Ok(vec![local(0)])
    );
}

#[test]
fn fresh_edges_are_known_as_such() {
    assert_eq!(DeltaEdgeFreshness::new(true, false), DeltaEdgeFreshness::Fresh);
    assert_eq!(DeltaEdgeFreshness::new(true, true), DeltaEdgeFreshness::Fresh);
    assert_eq!(DeltaEdgeFreshness::new(false, true), DeltaEdgeFreshness::FreshPublisher);
    assert_eq!(DeltaEdgeFreshness::new(false, false), DeltaEdgeFreshness::Stale);
    assert!(DeltaEdgeFreshness::Fresh.is_fresh());
    assert!(DeltaEdgeFreshness::FreshPublisher.is_fresh());
    assert!(!DeltaEdgeFreshness::Stale.is_fresh());
}

#[test]
fn a_path_is_searched_in_a_directed_graph() {
    let store = empty_store();
    let m = mapper(&store);
    let mut graph = DirectedAuditGraph::new();
    for (from, to, exemption_index) in [(10, Some(5), 0), (5, None, 1)] {
        graph.add_edge(
            Some(ver(from)),
            DeltaEdge {
                version: to.map(ver),
                criteria: m.all_criteria(),
                origin: DeltaEdgeOrigin::Exemption { exemption_index },
                freshness: DeltaEdgeFreshness::Stale,
            },
        );
    }
    assert_eq!(
        search_for_path(&graph, 0, &Some(ver(10)), &None, SearchMode::PreferExemptions),
        Ok(vec![
            DeltaEdgeOrigin::Exemption { exemption_index: 0 },
            DeltaEdgeOrigin::Exemption { exemption_index: 1 },
        ])
    );
    assert_eq!(
        search_for_path(&graph, 0, &Some(ver(10)), &Some(ver(7)), SearchMode::PreferExemptions),
        Err(vec![None, Some(ver(5)), Some(ver(10))])
    );
    assert_eq!(
        search_for_path(&graph, 0, &Some(ver(10)), &Some(ver(10)), SearchMode::PreferExemptions),
        Ok(vec![])
    );
}
