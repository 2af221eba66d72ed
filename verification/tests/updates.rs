use cargo_vet::criteria::CriteriaMapper;
use cargo_vet::edges::{RequiredEntry, SearchMode};
use cargo_vet::packages::Package;
use cargo_vet::records::{
    AuditEntry, AuditKind, AuditsFile, ConfigFile, CratesPublisher, CratesSourceId,
    ExemptedDependency, ImportsFile, RootPolicy, Store, UnpublishedEntry, VersionReq,
    WildcardEntry,
};
use cargo_vet::required::resolve_package_required_entries;
use cargo_vet::sorted_map::SortedMap;
use cargo_vet::update::{
    compute_updates, required_entries, should_prune_imports, StoreUpdates, UpdateMode, UpdateModes,
};
use cargo_vet::version::{Version, VetVersion};

const PKG: &str = "third-party";

fn ver(major: u64) -> VetVersion {
    VetVersion {
        semver: Version { major, minor: 0, patch: 0, pre: vec![], build: vec![] },
        git_rev: None,
    }
}

fn names(list: &[&str]) -> Vec<String> {
    list.iter().map(|s| s.to_string()).collect()
}

fn audit(kind: AuditKind, criteria: &str) -> AuditEntry {
    AuditEntry {
        who: vec![],
        criteria: names(&[criteria]),
        kind,
        importable: true,
        notes: None,
        aggregated_from: vec![],
        is_fresh_import: false,
    }
}

fn full(version: u64) -> AuditEntry {
    audit(AuditKind::Full { version: ver(version) }, "safe-to-deploy")
}

fn violation(range: &str) -> AuditEntry {
    let violation = VersionReq { text: range.to_string() };
    audit(AuditKind::Violation { violation }, "safe-to-deploy")
}

fn fresh(mut entry: AuditEntry) -> AuditEntry {
    entry.is_fresh_import = true;
    entry
}

fn exemption(version: u64, criteria: &[&str]) -> ExemptedDependency {
    ExemptedDependency { version: ver(version), criteria: names(criteria), suggest: true, notes: None }
}

fn wildcard(user_id: u64, is_fresh_import: bool) -> WildcardEntry {
    WildcardEntry {
        who: vec![],
        criteria: names(&["safe-to-deploy"]),
        source: CratesSourceId::User { user_id },
        start: 0,
        end: 100,
        renew: None,
        notes: None,
        aggregated_from: vec![],
        is_fresh_import,
    }
}

fn release(version: u64, user_id: u64, is_fresh_import: bool) -> CratesPublisher {
    CratesPublisher {
        version: ver(version),
        when: 50,
        source: CratesSourceId::User { user_id },
        is_fresh_import,
    }
}

fn no_audits() -> AuditsFile {
    AuditsFile {
        criteria: SortedMap::new(),
        wildcard_audits: SortedMap::new(),
        audits: SortedMap::new(),
        trusted: SortedMap::new(),
    }
}

fn empty_store() -> Store {
    Store {
        config: ConfigFile {
            root_policy: RootPolicy { criteria: None, dev_criteria: None },
            policy: SortedMap::new(),
            exemptions: SortedMap::new(),
        },
        audits: no_audits(),
        imports: ImportsFile {
            unpublished: SortedMap::new(),
            publisher: SortedMap::new(),
            audits: SortedMap::new(),
        },
        live_imports: None,
    }
}

fn mode(search_mode: SearchMode, prune: bool) -> UpdateMode {
    UpdateMode {
        search_mode,
        prune_exemptions: prune,
        prune_non_importable_audits: prune,
        prune_imports: prune,
    }
}

fn packages() -> Vec<Package> {
    vec![Package {
        id: "third-party@10".to_string(),
        name: PKG.to_string(),
        version: ver(10),
        crates_io: true,
        proc_macro: false,
        build_script: false,
        links: vec![],
    }]
}

fn update(store: &Store, mode: UpdateMode) -> StoreUpdates {
    let m = CriteriaMapper::new(&store.audits.criteria);
    let asked = vec![m.criteria_from_name("safe-to-deploy")];
    let modes = UpdateModes::uniform(mode);
    let required = required_entries(&packages(), &m, &asked, store, &modes);
    compute_updates(store, &m, &required, &modes)
}

fn import(store: &mut Store, audits: Vec<AuditEntry>) {
    let mut peer = no_audits();
    peer.audits.insert(PKG.to_string(), audits);
    store.imports.audits.insert("peer".to_string(), peer);
}

fn imported(updates: &StoreUpdates) -> Vec<AuditEntry> {
    match updates.imports.audits.get("peer").unwrap().audits.get(PKG) {
        Some(list) => list.clone(),
        None => vec![],
    }
}

#[test]
fn what_a_path_uses_is_required() {
    let mut store = empty_store();
    store.audits.audits.insert(
        PKG.to_string(),
        vec![
            full(1),
            audit(AuditKind::Delta { from: ver(9), to: ver(10) }, "safe-to-deploy"),
        ],
    );
    let mut peer = no_audits();
    peer.wildcard_audits.insert(PKG.to_string(), vec![wildcard(1, false)]);
    store.imports.audits.insert("peer".to_string(), peer);
    store.imports.publisher.insert(PKG.to_string(), vec![release(9, 1, false)]);
    let m = CriteriaMapper::new(&store.audits.criteria);
    let asked = vec![m.criteria_from_name("safe-to-deploy")];
    let entries = resolve_package_required_entries(
        &packages(),
        &m,
        &asked,
        &store,
        PKG,
        SearchMode::PreferExemptions,
    )
    .unwrap();
    assert_eq!(entries.len(), 3);
    // Criteria that follow from others are not searched for.
    let deploy = m.criteria_names(&entries.get(&RequiredEntry::LocalAudit { audit_index: 1 }).unwrap());
    assert_eq!(deploy, names(&["safe-to-deploy"]));
    assert!(entries.contains_key(&RequiredEntry::WildcardAudit { import_index: 0, audit_index: 0 }));
    assert!(entries.contains_key(&RequiredEntry::Publisher { publisher_index: 0 }));
    assert!(!entries.contains_key(&RequiredEntry::LocalAudit { audit_index: 0 }));
}

#[test]
fn nothing_is_required_for_an_unknown_name() {
    let store = empty_store();
    let m = CriteriaMapper::new(&store.audits.criteria);
    let asked = vec![m.criteria_from_name("safe-to-deploy")];
    let find = |name: &str| {
        resolve_package_required_entries(
            &packages(),
            &m,
            &asked,
            &store,
            name,
            SearchMode::PreferExemptions,
        )
    };
    assert_eq!(find("unknown").unwrap().len(), 0);
    assert!(find(PKG).is_none());
}

#[test]
fn a_package_with_violations_has_no_required_entries() {
    let mut store = empty_store();
    store.audits.audits.insert(PKG.to_string(), vec![full(10), violation("*")]);
    let m = CriteriaMapper::new(&store.audits.criteria);
    let asked = vec![m.criteria_from_name("safe-to-deploy")];
    assert!(resolve_package_required_entries(
        &packages(),
        &m,
        &asked,
        &store,
        PKG,
        SearchMode::RegenerateExemptions,
    )
    .is_none());
}

#[test]
fn stored_imports_are_kept_unless_pruned() {
    let mut store = empty_store();
    import(&mut store, vec![full(10), full(3)]);
    let kept = update(&store, mode(SearchMode::PreferExemptions, false));
    assert_eq!(imported(&kept), vec![full(3), full(10)]);
    let pruned = update(&store, mode(SearchMode::PreferExemptions, true));
    assert_eq!(imported(&pruned), vec![full(10)]);
}

#[test]
fn violations_are_imported_for_packages_of_the_build() {
    let mut store = empty_store();
    import(&mut store, vec![full(10), violation("^3.0.0"), fresh(violation("^4.0.0"))]);
    let mut other = no_audits();
    other.audits.insert("other".to_string(), vec![fresh(violation("*"))]);
    store.imports.audits.insert("zz-peer".to_string(), other);
    let pruned = update(&store, mode(SearchMode::PreferExemptions, true));
    assert_eq!(imported(&pruned), vec![full(10), violation("^3.0.0"), violation("^4.0.0")]);
    assert_eq!(pruned.imports.audits.get("zz-peer").unwrap().audits.len(), 0);
}

#[test]
fn of_packages_that_fail_nothing_fresh_is_imported() {
    let mut store = empty_store();
    import(&mut store, vec![full(3), fresh(full(4))]);
    store.imports.publisher.insert(
        PKG.to_string(),
        vec![release(5, 1, false), release(6, 1, true)],
    );
    let updates = update(&store, mode(SearchMode::PreferExemptions, true));
    assert_eq!(imported(&updates), vec![full(3)]);
    assert_eq!(updates.imports.publisher.get(PKG), Some(&vec![release(5, 1, false)]));
}

#[test]
fn fresh_wildcard_audits_and_releases_are_imported_together() {
    let mut store = empty_store();
    let mut peer = no_audits();
    peer.wildcard_audits.insert(PKG.to_string(), vec![wildcard(2, true), wildcard(1, true)]);
    store.imports.audits.insert("peer".to_string(), peer);
    store.imports.publisher.insert(
        PKG.to_string(),
        vec![release(10, 1, true), release(11, 1, true), release(9, 2, false)],
    );
    let updates = update(&store, mode(SearchMode::PreferExemptions, false));
    let file = updates.imports.audits.get("peer").unwrap();
    assert_eq!(file.wildcard_audits.get(PKG), Some(&vec![wildcard(1, false)]));
    // Something new is imported, so the stored release goes.
    assert_eq!(updates.imports.publisher.get(PKG), Some(&vec![release(10, 1, false)]));
}

#[test]
fn imports_are_pruned_when_something_new_comes() {
    let mut store = empty_store();
    import(&mut store, vec![full(3), fresh(full(10))]);
    let m = CriteriaMapper::new(&store.audits.criteria);
    let asked = vec![m.criteria_from_name("safe-to-deploy")];
    let keep = mode(SearchMode::PreferExemptions, false);
    let entries = resolve_package_required_entries(
        &packages(),
        &m,
        &asked,
        &store,
        PKG,
        SearchMode::PreferExemptions,
    );
    assert!(should_prune_imports(&store, &entries, keep, PKG));
    assert!(!should_prune_imports(&store, &None, keep, PKG));
    assert!(should_prune_imports(&store, &None, mode(SearchMode::PreferExemptions, true), PKG));
    assert_eq!(imported(&update(&store, keep)), vec![full(10)]);
}

#[test]
fn own_audits_that_are_not_needed_are_pruned() {
    let hidden = |v: u64| {
        let mut entry = full(v);
        entry.importable = false;
        entry
    };
    let mut store = empty_store();
    store
        .audits
        .audits
        .insert(PKG.to_string(), vec![hidden(10), hidden(3), full(4)]);
    store.audits.audits.insert("other".to_string(), vec![hidden(1)]);
    let kept = update(&store, mode(SearchMode::PreferExemptions, false));
    assert_eq!(kept.audits, store.audits.audits);
    let pruned = update(&store, mode(SearchMode::PreferExemptions, true));
    assert_eq!(pruned.audits.get(PKG), Some(&vec![hidden(10), full(4)]));
    assert_eq!(pruned.audits.get("other"), Some(&vec![hidden(1)]));
}

#[test]
fn exemptions_are_narrowed_to_what_is_needed() {
    let mut store = empty_store();
    store.config.exemptions.insert(
        PKG.to_string(),
        vec![exemption(10, &["safe-to-deploy"]), exemption(3, &["safe-to-run"])],
    );
    store
        .config
        .exemptions
        .insert("other".to_string(), vec![exemption(1, &["safe-to-run"])]);
    let pruned = update(&store, mode(SearchMode::PreferExemptions, true));
    assert_eq!(
        pruned.exemptions.get(PKG),
        Some(&vec![exemption(10, &["safe-to-deploy"])])
    );
    assert_eq!(pruned.exemptions.get("other"), None);
    let kept = update(&store, mode(SearchMode::PreferExemptions, false));
    assert_eq!(
        kept.exemptions.get(PKG),
        Some(&vec![exemption(3, &["safe-to-run"]), exemption(10, &["safe-to-deploy"])])
    );
    assert_eq!(kept.exemptions.get("other"), Some(&vec![exemption(1, &["safe-to-run"])]));
}

#[test]
fn an_exemption_is_extended_unless_it_is_not_to_be_suggested() {
    let mut store = empty_store();
    store
        .config
        .exemptions
        .insert(PKG.to_string(), vec![exemption(10, &["safe-to-run"])]);
    let updates = update(&store, mode(SearchMode::RegenerateExemptions, true));
    assert_eq!(
        updates.exemptions.get(PKG),
        Some(&vec![exemption(10, &["safe-to-deploy"])])
    );
    let mut quiet = exemption(10, &["safe-to-run"]);
    quiet.suggest = false;
    quiet.notes = Some("known".to_string());
    store.config.exemptions.insert(PKG.to_string(), vec![quiet.clone()]);
    let updates = update(&store, mode(SearchMode::RegenerateExemptions, true));
    assert_eq!(
        updates.exemptions.get(PKG),
        Some(&vec![exemption(10, &["safe-to-deploy"]), quiet])
    );
}

#[test]
fn new_exemptions_are_added_when_they_are_regenerated() {
    let store = empty_store();
    let updates = update(&store, mode(SearchMode::RegenerateExemptions, false));
    assert_eq!(
        updates.exemptions.get(PKG),
        Some(&vec![exemption(10, &["safe-to-deploy"])])
    );
    let updates = update(&store, mode(SearchMode::PreferFreshImports, false));
    assert_eq!(updates.exemptions.len(), 0);
}

#[test]
fn unpublished_entries_are_kept_once() {
    let entry = |audited_as: u64, is_fresh_import: bool| UnpublishedEntry {
        version: ver(10),
        audited_as: ver(audited_as),
        still_unpublished: true,
        is_fresh_import,
    };
    let mut store = empty_store();
    store.audits.audits.insert(PKG.to_string(), vec![full(9)]);
    store
        .imports
        .unpublished
        .insert(PKG.to_string(), vec![entry(9, true), entry(9, false), entry(8, false)]);
    // The fresh entry is used, and is then the same as the stored one.
    let updates = update(&store, mode(SearchMode::PreferFreshImports, false));
    assert_eq!(
        updates.imports.unpublished.get(PKG),
        Some(&vec![entry(8, false), entry(9, false)])
    );
    let updates = update(&store, mode(SearchMode::PreferExemptions, true));
    assert_eq!(updates.imports.unpublished.get(PKG), Some(&vec![entry(9, false)]));
}

#[test]
fn updates_replace_what_is_stored() {
    let mut store = empty_store();
    store
        .config
        .exemptions
        .insert(PKG.to_string(), vec![exemption(3, &["safe-to-run"])]);
    import(&mut store, vec![full(10), full(3)]);
    store.live_imports = Some(empty_store().imports);
    let mut updates = update(&store, mode(SearchMode::PreferExemptions, true));
    assert_eq!(updates.exemptions.get(PKG), Some(&vec![exemption(3, &["safe-to-run"])]));
    updates.exemptions = SortedMap::new();
    updates.apply(&mut store);
    assert_eq!(store.config.exemptions.len(), 0);
    assert_eq!(store.imports.audits.len(), 0);
    assert!(store.live_imports.is_some());
}

#[test]
fn packages_can_be_updated_in_different_ways() {
    let mut modes = UpdateModes::uniform(mode(SearchMode::PreferExemptions, false));
    modes
        .named
        .insert(PKG.to_string(), mode(SearchMode::RegenerateExemptions, true));
    assert_eq!(modes.for_package(PKG), mode(SearchMode::RegenerateExemptions, true));
    assert_eq!(modes.for_package("other"), mode(SearchMode::PreferExemptions, false));
}
