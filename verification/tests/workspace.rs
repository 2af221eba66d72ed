use cargo_vet::audit_graph::ViolationConflict;
use cargo_vet::criteria::CriteriaMapper;
use cargo_vet::dev_features::{DevFeatureErrors, FeatureError};
use cargo_vet::edges::SearchMode;
use cargo_vet::json::{JsonPackage, JsonReportConclusion};
use cargo_vet::package_graph::{
    find_packages, read_declared_features, read_features, read_packages,
};
use cargo_vet::packages::{BuildPlatform, EnabledTernary, Package};
use cargo_vet::policy::{check_crate_policies, CratePolicyErrors, PackageError};
use cargo_vet::print::Span;
use cargo_vet::records::{
    AuditEntry, AuditKind, AuditsFile, ConfigFile, CriteriaEntry, ExemptedDependency, ImportsFile,
    PackagePolicyEntry, PolicyEntry, RootPolicy, Store, VersionReq,
};
use cargo_vet::requirements::resolve_requirements;
use cargo_vet::resolve::{resolve, Conclusion, ResolveReport};
use cargo_vet::sorted_map::SortedMap;
use cargo_vet::update::{get_store_updates, update_store, UpdateMode, UpdateModes};
use cargo_vet::version::{Version, VetVersion};
use guppy::graph::cargo::CargoResolverVersion;
use guppy::graph::PackageGraph;

const DEFAULT_VER: u64 = 10;

const REGISTRY: &str = "registry+https://github.com/rust-lang/crates.io-index";

const REV: &str = "00112233445566778899aabbccddeeff00112233";

fn ver(major: u64) -> VetVersion {
    VetVersion {
        semver: Version { major, minor: 0, patch: 0, pre: vec![], build: vec![] },
        git_rev: None,
    }
}

fn names(list: &[&str]) -> Vec<String> {
    list.iter().map(|s| s.to_string()).collect()
}

struct MockDep {
    name: &'static str,
    kind: &'static str,
    optional: bool,
}

fn dep(name: &'static str) -> MockDep {
    MockDep { name, kind: "", optional: false }
}

struct MockPackage {
    name: &'static str,
    version: String,
    source: Option<String>,
    workspace: bool,
    proc_macro: bool,
    build_script: bool,
    features: Vec<(&'static str, &'static str)>,
    deps: Vec<MockDep>,
}

fn mock(name: &'static str, deps: Vec<MockDep>) -> MockPackage {
    MockPackage {
        name,
        version: format!("{}.0.0", DEFAULT_VER),
        source: None,
        workspace: true,
        proc_macro: false,
        build_script: false,
        features: vec![],
        deps,
    }
}

fn first_party(name: &'static str, deps: Vec<MockDep>) -> MockPackage {
    MockPackage { workspace: false, ..mock(name, deps) }
}

fn third_party(name: &'static str, deps: Vec<MockDep>) -> MockPackage {
    MockPackage { source: Some(REGISTRY.to_string()), workspace: false, ..mock(name, deps) }
}

fn quoted(s: &str) -> String {
    format!("\"{}\"", s)
}

fn on_json(on: &str) -> String {
    if on.is_empty() {
        String::new()
    } else {
        quoted(on)
    }
}

fn id_of(p: &MockPackage) -> String {
    format!("{}@{}", p.name, p.version)
}

fn package_json(p: &MockPackage) -> String {
    let deps: Vec<String> = p
        .deps
        .iter()
        .map(|d| {
            format!(
                "{{\"name\":\"{}\",\"source\":null,\"req\":\"*\",\"kind\":{},\"optional\":{},\
                 \"uses_default_features\":true,\"features\":[],\"target\":null,\"rename\":null,\
                 \"registry\":null}}",
                d.name,
                if d.kind.is_empty() { "null".to_string() } else { quoted(d.kind) },
                d.optional,
            )
        })
        .collect();
    let features: Vec<String> =
        p.features.iter().map(|(f, on)| format!("\"{}\":[{}]", f, on_json(on))).collect();
    let kind = if p.proc_macro { "proc-macro" } else { "lib" };
    let mut targets = vec![format!(
        "{{\"name\":\"{}\",\"kind\":[\"{}\"],\"crate_types\":[\"{}\"],\
         \"src_path\":\"/path/{}/src/lib.rs\"}}",
        p.name, kind, kind, p.name
    )];
    if p.build_script {
        targets.push(format!(
            "{{\"name\":\"build-script-build\",\"kind\":[\"custom-build\"],\
             \"crate_types\":[\"bin\"],\"src_path\":\"/path/{}/build.rs\"}}",
            p.name
        ));
    }
    format!(
        "{{\"name\":\"{}\",\"version\":\"{}\",\"id\":\"{}\",\"source\":{},\"dependencies\":[{}],\
         \"targets\":[{}],\"features\":{{{}}},\"manifest_path\":\"/path/{}/Cargo.toml\",\
         \"license\":null,\"license_file\":null,\"description\":null,\"metadata\":null,\
         \"publish\":null,\"authors\":[],\"categories\":[],\"keywords\":[],\"readme\":null,\
         \"repository\":null,\"homepage\":null,\"documentation\":null,\"edition\":\"2021\",\
         \"links\":null,\"default_run\":null,\"rust_version\":null}}",
        p.name,
        p.version,
        id_of(p),
        match &p.source {
            Some(s) => quoted(s),
            None => "null".to_string(),
        },
        deps.join(","),
        targets.join(","),
        features.join(","),
        p.name,
    )
}

fn graph_of(packages: &[MockPackage]) -> PackageGraph {
    let find = |name: &str| id_of(packages.iter().find(|p| p.name == name).unwrap());
    let nodes: Vec<String> = packages
        .iter()
        .map(|p| {
            let deps: Vec<String> = p
                .deps
                .iter()
                .map(|d| {
                    format!(
                        "{{\"name\":\"{}\",\"pkg\":\"{}\",\"dep_kinds\":[{{\"kind\":{},\
                         \"target\":null}}]}}",
                        d.name.replace('-', "_"),
                        find(d.name),
                        if d.kind.is_empty() { "null".to_string() } else { quoted(d.kind) },
                    )
                })
                .collect();
            let ids: Vec<String> = p.deps.iter().map(|d| quoted(&find(d.name))).collect();
            format!(
                "{{\"id\":\"{}\",\"deps\":[{}],\"dependencies\":[{}],\"features\":[]}}",
                id_of(p),
                deps.join(","),
                ids.join(",")
            )
        })
        .collect();
    let members: Vec<String> =
        packages.iter().filter(|p| p.workspace).map(|p| quoted(&id_of(p))).collect();
    let list: Vec<String> = packages.iter().map(package_json).collect();
    let json = format!(
        "{{\"packages\":[{}],\"workspace_members\":[{}],\"workspace_default_members\":[{}],\
         \"resolve\":{{\"nodes\":[{}],\"root\":null}},\"target_directory\":\"/path/target\",\
         \"version\":1,\"workspace_root\":\"/path\",\"metadata\":null}}",
        list.join(","),
        members.join(","),
        members.join(","),
        nodes.join(","),
    );
    PackageGraph::from_json(json).unwrap()
}

fn simple() -> PackageGraph {
    graph_of(&[
        mock("root-package", vec![dep("first-party")]),
        first_party("first-party", vec![dep("third-party1"), dep("third-party2")]),
        third_party("third-party1", vec![dep("transitive-third-party1")]),
        third_party("third-party2", vec![]),
        third_party("transitive-third-party1", vec![]),
    ])
}

fn audit(kind: AuditKind, criteria: &str) -> AuditEntry {
    AuditEntry {
        who: vec![],
        criteria: names(&[criteria]),
        kind,
        importable: true,
        notes: None,
        aggregated_from: vec![],
        is_fresh_import: false,
    }
}

fn full_audit(version: VetVersion, criteria: &str) -> AuditEntry {
    audit(AuditKind::Full { version }, criteria)
}

fn delta_audit(from: VetVersion, to: VetVersion, criteria: &str) -> AuditEntry {
    audit(AuditKind::Delta { from, to }, criteria)
}

fn no_audits() -> AuditsFile {
    AuditsFile {
        criteria: SortedMap::new(),
        wildcard_audits: SortedMap::new(),
        audits: SortedMap::new(),
        trusted: SortedMap::new(),
    }
}

fn no_imports() -> ImportsFile {
    ImportsFile {
        unpublished: SortedMap::new(),
        publisher: SortedMap::new(),
        audits: SortedMap::new(),
    }
}

fn no_policy() -> PolicyEntry {
    PolicyEntry {
        audit_as_crates_io: None,
        criteria: None,
        dev_criteria: None,
        dependency_criteria: SortedMap::new(),
        dev_features: vec![],
    }
}

/// A store without audits, whose workspace asks for "reviewed".
fn reviewed_store() -> Store {
    let mut audits = no_audits();
    let implied: [(&str, &[&str]); 4] = [
        ("strong-reviewed", &["reviewed"]),
        ("reviewed", &["weak-reviewed"]),
        ("weak-reviewed", &[]),
        ("fuzzed", &[]),
    ];
    for (name, implies) in implied {
        audits.criteria.insert(
            name.to_string(),
            CriteriaEntry { description: None, implies: names(implies) },
        );
    }
    let mut policy: SortedMap<PackagePolicyEntry> = SortedMap::new();
    let mut root = no_policy();
    root.criteria = Some(names(&["reviewed"]));
    root.dev_criteria = Some(names(&["reviewed"]));
    policy.insert("root-package".to_string(), PackagePolicyEntry::Unversioned(root));
    Store {
        config: ConfigFile {
            root_policy: RootPolicy { criteria: None, dev_criteria: None },
            policy,
            exemptions: SortedMap::new(),
        },
        audits,
        imports: no_imports(),
        live_imports: None,
    }
}

fn set_policy(store: &mut Store, name: &str, entry: PolicyEntry) {
    store.config.policy.insert(name.to_string(), PackagePolicyEntry::Unversioned(entry));
}

fn required(graph: &PackageGraph, store: &Store) -> Vec<(String, Vec<String>)> {
    let m = CriteriaMapper::new(&store.audits.criteria);
    let packages = read_packages(graph);
    let sets = resolve_requirements(graph, &packages, &store.config, &m, CargoResolverVersion::V2);
    let mut r: Vec<(String, Vec<String>)> = packages
        .iter()
        .zip(&sets)
        .filter(|(_, set)| !set.is_empty())
        .map(|(p, set)| (p.name.clone(), m.criteria_names(set)))
        .collect();
    r.sort();
    r
}

fn asks(list: &[(&str, &[&str])]) -> Vec<(String, Vec<String>)> {
    list.iter().map(|(name, criteria)| (name.to_string(), names(criteria))).collect()
}

fn run(graph: &PackageGraph, store: &Store) -> ResolveReport {
    resolve(graph, CargoResolverVersion::V2, store)
}

fn text_of(spans: &[Span]) -> String {
    spans.iter().map(|s| s.text.as_str()).collect()
}

fn package_named<'a>(packages: &'a [Package], name: &str) -> &'a Package {
    packages.iter().find(|p| p.name == name).unwrap()
}

#[test]
fn packages_are_read_from_the_graph() {
    let mut git = third_party("git-dep", vec![]);
    git.source = Some(format!("git+https://example.com/repo?rev=main#{}", REV));
    git.version = "1.2.3-alpha.4+build.5".to_string();
    let mut script = third_party("with-script", vec![]);
    script.build_script = true;
    let mut derive = third_party("derive", vec![]);
    derive.proc_macro = true;
    let graph = graph_of(&[
        mock(
            "root-package",
            vec![dep("git-dep"), dep("with-script"), dep("derive")],
        ),
        git,
        script,
        derive,
    ]);
    let packages = read_packages(&graph);
    assert_eq!(packages.len(), 4);
    let root = package_named(&packages, "root-package");
    assert_eq!(root.id, "root-package@10.0.0");
    assert_eq!(root.version, ver(10));
    assert!(!root.crates_io && !root.proc_macro && !root.build_script);
    assert_eq!(root.links.len(), 3);
    for link in &root.links {
        let to = &packages[link.to];
        assert_eq!(link.dep_name, to.name);
        assert_eq!(link.normal.required, EnabledTernary::Enabled);
        assert_eq!(link.development.required, EnabledTernary::Disabled);
        assert_eq!(link.build.enabled, EnabledTernary::Disabled);
    }
    let git = package_named(&packages, "git-dep");
    assert_eq!(git.version.git_rev, Some(REV.to_string()));
    assert_eq!(git.version.semver.pre, names(&["alpha", "4"]));
    assert_eq!(git.version.semver.build, names(&["build", "5"]));
    assert_eq!(git.version.to_text(), format!("1.2.3-alpha.4+build.5@git:{}", REV));
    assert!(!git.crates_io);
    assert!(package_named(&packages, "with-script").build_script);
    assert!(package_named(&packages, "derive").proc_macro);
    assert!(package_named(&packages, "derive").crates_io);
    let ids = vec!["derive@10.0.0".to_string()];
    let found = find_packages(&graph, &packages, &ids);
    assert_eq!(packages[found[0]].name, "derive");
}

#[test]
fn features_are_read_from_a_simulated_build() {
    let mut root = mock(
        "root-package",
        vec![
            MockDep { name: "third-party1", kind: "", optional: true },
            MockDep { name: "third-party2", kind: "dev", optional: false },
        ],
    );
    root.features = vec![("feat", "third-party1")];
    let graph = graph_of(&[
        root,
        third_party("third-party1", vec![]),
        third_party("third-party2", vec![]),
    ]);
    let packages = read_packages(&graph);
    let p = packages.iter().position(|p| p.name == "root-package").unwrap();
    let initials = vec!["root-package@10.0.0".to_string()];
    let features =
        read_features(&graph, &packages, &initials, false, CargoResolverVersion::V2);
    let link = |name: &str| {
        packages[p].links.iter().position(|l| l.dep_name == name).unwrap()
    };
    assert!(features.contains(BuildPlatform::Target, p, link("third-party1")));
    assert!(!features.contains(BuildPlatform::Host, p, link("third-party1")));
    assert!(!features.contains(BuildPlatform::Target, p, link("third-party2")));
    let store = reviewed_store();
    assert_eq!(
        required(&graph, &store),
        asks(&[("third-party1", &["reviewed"]), ("third-party2", &["reviewed"])])
    );
}

#[test]
fn declared_features_are_read_from_the_graph() {
    let mut root = mock(
        "root-package",
        vec![MockDep { name: "third-party1", kind: "", optional: true }],
    );
    root.features = vec![("feat", "third-party1"), ("feat2", "feat"), ("feat3", "")];
    let graph = graph_of(&[root, third_party("third-party1", vec![])]);
    let packages = read_packages(&graph);
    let declared = read_declared_features(&graph, &packages);
    assert_eq!(declared.len(), 2);
    for (p, package) in packages.iter().enumerate() {
        let mut list: Vec<(&str, Vec<&str>)> = declared[p]
            .features
            .iter()
            .map(|f| (f.name.as_str(), f.enables.iter().map(|g| g.as_str()).collect()))
            .collect();
        list.sort();
        if package.name == "root-package" {
            assert!(declared[p].in_workspace);
            assert_eq!(
                list,
                vec![
                    ("feat", vec!["third-party1"]),
                    ("feat2", vec!["feat"]),
                    ("feat3", vec![]),
                    ("third-party1", vec![]),
                ]
            );
        } else {
            assert!(!declared[p].in_workspace);
            assert_eq!(list, vec![]);
        }
    }
}

fn check_dev_policy(
    graph: &PackageGraph,
    name: &str,
    dev_features: &[&str],
) -> Result<(), CratePolicyErrors> {
    let packages = read_packages(graph);
    let declared = read_declared_features(graph, &packages);
    let mut store = reviewed_store();
    store.config.policy = SortedMap::new();
    let mut entry = no_policy();
    entry.dev_features = names(dev_features);
    set_policy(&mut store, name, entry);
    check_crate_policies(&packages, &declared, &store.config)
}

fn feature_error(package: &str, feature: &str, implied_by: Option<&str>) -> FeatureError {
    FeatureError {
        package: package.to_string(),
        version: ver(DEFAULT_VER),
        feature: feature.to_string(),
        implied_by: implied_by.map(|f| f.to_string()),
    }
}

fn feature_errors(dev_features: DevFeatureErrors) -> CratePolicyErrors {
    CratePolicyErrors { needs_policy_version: vec![], unused_policy: vec![], dev_features }
}

#[test]
fn features_non_workspace_excluded() {
    let mut other = third_party("third-party", vec![]);
    other.features = vec![("unknown-feature", "")];
    let graph = graph_of(&[mock("root", vec![dep("third-party")]), other]);
    assert_eq!(
        check_dev_policy(&graph, "third-party", &["unknown-feature"]),
        Err(feature_errors(DevFeatureErrors {
            outside_workspace: vec![PackageError {
                package: "third-party".to_string(),
                version: Some(ver(DEFAULT_VER)),
            }],
            unknown: vec![],
            implied: vec![],
        }))
    );
}

#[test]
fn features_excluded_unknown() {
    let mut root = mock("root", vec![]);
    root.features = vec![("known-feature", "")];
    let graph = graph_of(&[root]);
    assert_eq!(
        check_dev_policy(&graph, "root", &["known-feature", "unknown-feature"]),
        Err(feature_errors(DevFeatureErrors {
            outside_workspace: vec![],
            unknown: vec![feature_error("root", "unknown-feature", None)],
            implied: vec![],
        }))
    );
    assert_eq!(check_dev_policy(&graph, "root", &["known-feature"]), Ok(()));
}

/// The `third-party` feature of the optional dependency is implied by `feat`,
/// which is not left to development.
#[test]
fn features_excluded_implied_fail() {
    let mut root =
        mock("root", vec![MockDep { name: "third-party", kind: "", optional: true }]);
    root.features = vec![("feat", "third-party"), ("feat2", "feat")];
    let graph = graph_of(&[root, third_party("third-party", vec![])]);
    assert_eq!(
        check_dev_policy(&graph, "root", &["third-party"]),
        Err(feature_errors(DevFeatureErrors {
            outside_workspace: vec![],
            unknown: vec![],
            implied: vec![feature_error("root", "third-party", Some("feat"))],
        }))
    );
    assert_eq!(check_dev_policy(&graph, "root", &["third-party", "feat", "feat2"]), Ok(()));
}

#[test]
fn requirements_reach_all_third_party_packages() {
    assert_eq!(
        required(&simple(), &reviewed_store()),
        asks(&[
            ("third-party1", &["reviewed"]),
            ("third-party2", &["reviewed"]),
            ("transitive-third-party1", &["reviewed"]),
        ])
    );
}

#[test]
fn what_is_asked_includes_what_it_implies() {
    let graph = simple();
    let store = reviewed_store();
    let m = CriteriaMapper::new(&store.audits.criteria);
    let packages = read_packages(&graph);
    let sets = resolve_requirements(&graph, &packages, &store.config, &m, CargoResolverVersion::V2);
    let p = packages.iter().position(|p| p.name == "third-party1").unwrap();
    assert_eq!(sets[p], m.criteria_from_name("reviewed"));
    assert!(sets[p].contains(&m.criteria_from_name("weak-reviewed")));
    let root = packages.iter().position(|p| p.name == "root-package").unwrap();
    assert!(sets[root].is_empty());
}

#[test]
fn policies_change_what_is_asked() {
    let mut store = reviewed_store();
    let mut entry = no_policy();
    entry
        .dependency_criteria
        .insert("third-party1".to_string(), names(&["strong-reviewed"]));
    entry.dependency_criteria.insert("third-party2".to_string(), vec![]);
    set_policy(&mut store, "first-party", entry);
    assert_eq!(
        required(&simple(), &store),
        asks(&[
            ("third-party1", &["strong-reviewed"]),
            ("transitive-third-party1", &["strong-reviewed"]),
        ])
    );
}

#[test]
fn without_policies_the_defaults_are_asked() {
    let mut store = reviewed_store();
    store.config.policy = SortedMap::new();
    let graph = graph_of(&[
        mock(
            "root-package",
            vec![
                dep("third-party1"),
                MockDep { name: "third-party2", kind: "dev", optional: false },
            ],
        ),
        third_party("third-party1", vec![]),
        third_party("third-party2", vec![]),
    ]);
    assert_eq!(
        required(&graph, &store),
        asks(&[("third-party1", &["safe-to-deploy"]), ("third-party2", &["safe-to-run"])])
    );
    store.config.root_policy = RootPolicy {
        criteria: Some(names(&["reviewed"])),
        dev_criteria: Some(names(&["fuzzed"])),
    };
    assert_eq!(
        required(&graph, &store),
        asks(&[("third-party1", &["fuzzed", "reviewed"]), ("third-party2", &["fuzzed"])])
    );
}

#[test]
fn the_development_pass_is_capped_by_the_criteria_of_a_policy() {
    let mut store = reviewed_store();
    store.config.policy = SortedMap::new();
    store.config.root_policy = RootPolicy {
        criteria: Some(names(&["reviewed"])),
        dev_criteria: Some(names(&["strong-reviewed"])),
    };
    let graph = graph_of(&[
        mock("root-package", vec![dep("third-party1")]),
        third_party("third-party1", vec![]),
    ]);
    assert_eq!(
        required(&graph, &store),
        asks(&[("third-party1", &["strong-reviewed"])])
    );
    let mut entry = no_policy();
    entry.criteria = Some(names(&["weak-reviewed"]));
    set_policy(&mut store, "root-package", entry);
    assert_eq!(
        required(&graph, &store),
        asks(&[("third-party1", &["weak-reviewed"])])
    );
}

#[test]
fn build_dependencies_need_a_build_script() {
    for build_script in [false, true] {
        let mut root = mock(
            "root-package",
            vec![MockDep { name: "third-party1", kind: "build", optional: false }],
        );
        root.build_script = build_script;
        let graph = graph_of(&[root, third_party("third-party1", vec![])]);
        let expected = if build_script {
            asks(&[("third-party1", &["reviewed"])])
        } else {
            vec![]
        };
        assert_eq!(required(&graph, &reviewed_store()), expected);
    }
}

#[test]
fn a_workspace_without_dependencies_succeeds() {
    let report = run(&graph_of(&[mock("root-package", vec![])]), &reviewed_store());
    assert!(!report.has_errors());
    assert!(!report._has_warnings());
    assert_eq!(
        text_of(&report.print_human(None)),
        "Vetting Succeeded (because you have no third-party dependencies)\n"
    );
}

#[test]
fn audits_and_exemptions_are_told_apart() {
    let graph = simple();
    let mut store = reviewed_store();
    store
        .audits
        .audits
        .insert("third-party1".to_string(), vec![full_audit(ver(10), "reviewed")]);
    store.audits.audits.insert(
        "third-party2".to_string(),
        vec![delta_audit(ver(9), ver(10), "reviewed")],
    );
    let exempt = |version: u64| ExemptedDependency {
        version: ver(version),
        criteria: names(&["reviewed"]),
        suggest: true,
        notes: None,
    };
    store.config.exemptions.insert("third-party2".to_string(), vec![exempt(9)]);
    store
        .config
        .exemptions
        .insert("transitive-third-party1".to_string(), vec![exempt(10)]);
    let report = run(&graph, &store);
    assert!(!report.has_errors());
    assert_eq!(
        text_of(&report.print_human(None)),
        "Vetting Succeeded (1 fully audited, 1 partially audited, 1 exempted)\n"
    );
    let package = |name: &str| JsonPackage { name: name.to_string(), version: ver(10) };
    match report.print_json(None).conclusion {
        JsonReportConclusion::Success(s) => {
            assert_eq!(s.vetted_fully, vec![package("third-party1")]);
            assert_eq!(s.vetted_partially, vec![package("third-party2")]);
            assert_eq!(s.vetted_with_exemptions, vec![package("transitive-third-party1")]);
        }
        _ => panic!("vetting failed"),
    }
}

/// One criterion is met by an exemption and another by an audit: both are used.
#[test]
fn criteria_met_in_different_ways_are_told_as_partial() {
    let graph = graph_of(&[
        mock("root-package", vec![dep("third-party1"), dep("third-party2")]),
        third_party("third-party1", vec![]),
        third_party("third-party2", vec![]),
    ]);
    let mut store = reviewed_store();
    for name in ["a", "b"] {
        store.audits.criteria.insert(
            name.to_string(),
            CriteriaEntry { description: None, implies: vec![] },
        );
    }
    let mut entry = no_policy();
    entry.criteria = Some(names(&["a", "b"]));
    entry.dev_criteria = Some(names(&["a", "b"]));
    set_policy(&mut store, "root-package", entry);
    let exempt = |criteria: &[&str]| ExemptedDependency {
        version: ver(10),
        criteria: names(criteria),
        suggest: true,
        notes: None,
    };
    store.config.exemptions.insert("third-party1".to_string(), vec![exempt(&["a"])]);
    store.audits.audits.insert("third-party1".to_string(), vec![full_audit(ver(10), "b")]);
    store.config.exemptions.insert("third-party2".to_string(), vec![exempt(&["a", "b"])]);
    match run(&graph, &store).print_json(None).conclusion {
        JsonReportConclusion::Success(s) => {
            let package = |name: &str| JsonPackage { name: name.to_string(), version: ver(10) };
            assert_eq!(s.vetted_fully, vec![]);
            assert_eq!(s.vetted_partially, vec![package("third-party1")]);
            assert_eq!(s.vetted_with_exemptions, vec![package("third-party2")]);
        }
        _ => panic!("vetting failed"),
    }
}

#[test]
fn failures_are_told_by_name() {
    let mut store = reviewed_store();
    store
        .audits
        .audits
        .insert("third-party1".to_string(), vec![full_audit(ver(10), "weak-reviewed")]);
    let report = run(&simple(), &store);
    assert!(report.has_errors());
    assert_eq!(
        text_of(&report.print_human(None)),
        "Vetting Failed!\n\n3 unvetted dependencies:\n  \
         third-party1:10.0.0 missing [\"reviewed\"]\n  \
         third-party2:10.0.0 missing [\"reviewed\"]\n  \
         transitive-third-party1:10.0.0 missing [\"reviewed\"]\n"
    );
    match report.print_json(None).conclusion {
        JsonReportConclusion::FailForVet(f) => {
            assert_eq!(f.failures.len(), 3);
            assert_eq!(f.failures[0].name, "third-party1");
            assert_eq!(f.failures[0].version, ver(10));
            assert_eq!(f.failures[0].missing_criteria, names(&["reviewed"]));
            assert!(f.suggest.is_none());
        }
        _ => panic!("vetting did not fail"),
    }
}

#[test]
fn violations_are_told_before_failures() {
    let mut store = reviewed_store();
    let mut bad = audit(
        AuditKind::Violation { violation: VersionReq { text: "^10.0.0".to_string() } },
        "weak-reviewed",
    );
    bad.who = names(&["alice", "bob"]);
    bad.notes = Some("oops".to_string());
    store.audits.audits.insert(
        "third-party1".to_string(),
        vec![bad.clone(), full_audit(ver(10), "reviewed")],
    );
    store.config.exemptions.insert(
        "third-party1".to_string(),
        vec![ExemptedDependency {
            version: ver(10),
            criteria: names(&["reviewed"]),
            suggest: false,
            notes: Some("trust me".to_string()),
        }],
    );
    let report = run(&simple(), &store);
    assert!(report.has_errors());
    assert_eq!(
        text_of(&report.print_human(None)),
        "Violations Found!\n  third-party1:10.0.0\n    \
         the exemption 10.0.0\n      criteria: [\"reviewed\"]\n      notes: trust me\n    \
         conflicts with own violation against ^10.0.0\n      criteria: [\"weak-reviewed\"]\n      \
         who: alice, bob\n      notes: oops\n\n    \
         the own audit 10.0.0\n      criteria: [\"reviewed\"]\n    \
         conflicts with own violation against ^10.0.0\n      criteria: [\"weak-reviewed\"]\n      \
         who: alice, bob\n      notes: oops\n\n"
    );
    match report.print_json(None).conclusion {
        JsonReportConclusion::FailForViolationConflict(f) => {
            let list = f.violations.get("third-party1:10.0.0").unwrap();
            assert_eq!(list.len(), 2);
            assert!(matches!(list[0], ViolationConflict::UnauditedConflict { .. }));
            assert!(matches!(
                &list[1],
                ViolationConflict::AuditConflict { violation, .. } if *violation == bad
            ));
        }
        _ => panic!("no violations were found"),
    }
}

#[test]
fn mock_simple_suggested_criteria() {
    let mut store = reviewed_store();
    let mut entry = no_policy();
    entry
        .dependency_criteria
        .insert("third-party1".to_string(), names(&["strong-reviewed"]));
    set_policy(&mut store, "first-party", entry);
    for name in ["third-party1", "third-party2"] {
        store.audits.audits.insert(
            name.to_string(),
            vec![
                full_audit(ver(2), "weak-reviewed"),
                full_audit(ver(3), "reviewed"),
                full_audit(ver(4), "strong-reviewed"),
                delta_audit(ver(6), ver(DEFAULT_VER), "strong-reviewed"),
                delta_audit(ver(7), ver(DEFAULT_VER), "reviewed"),
                delta_audit(ver(8), ver(DEFAULT_VER), "weak-reviewed"),
            ],
        );
    }
    let report = run(&simple(), &store);

    let mut output = String::new();
    for (from, to, descr) in [
        (0, DEFAULT_VER, "full audit"),
        // from existing audit
        (2, DEFAULT_VER, "from weak-reviewed"),
        (3, DEFAULT_VER, "from reviewed"),
        (4, DEFAULT_VER, "from strong-reviewed"),
        // to existing audit
        (0, 6, "to strong-reviewed"),
        (0, 7, "to reviewed"),
        (0, 8, "to weak-reviewed"),
        // bridge existing audits
        (2, 6, "from weak-reviewed to strong-reviewed"),
        (2, 7, "from weak-reviewed to reviewed"),
        (2, 8, "from weak-reviewed to weak-reviewed"),
        (3, 6, "from reviewed to strong-reviewed"),
        (3, 7, "from reviewed to reviewed"),
        (3, 8, "from reviewed to weak-reviewed"),
        (4, 6, "from strong-reviewed to strong-reviewed"),
        (4, 7, "from strong-reviewed to reviewed"),
        (4, 8, "from strong-reviewed to weak-reviewed"),
    ] {
        // A full audit starts from nothing.
        let start = if from == 0 { None } else { Some(ver(from)) };
        let first = report.compute_suggested_criteria("third-party1", start.as_ref(), &ver(to));
        let second = report.compute_suggested_criteria("third-party2", start.as_ref(), &ver(to));
        output.push_str(&format!(
            "{}\n  third-party1: {:?}\n  third-party2: {:?}\n",
            descr, first, second
        ));
    }
    let expected = [
        ("full audit", "strong-reviewed", "reviewed"),
        ("from weak-reviewed", "weak-reviewed", "weak-reviewed"),
        ("from reviewed", "reviewed", "reviewed"),
        ("from strong-reviewed", "strong-reviewed", "reviewed"),
        ("to strong-reviewed", "strong-reviewed", "reviewed"),
        ("to reviewed", "reviewed", "reviewed"),
        ("to weak-reviewed", "weak-reviewed", "weak-reviewed"),
        ("from weak-reviewed to strong-reviewed", "weak-reviewed", "weak-reviewed"),
        ("from weak-reviewed to reviewed", "weak-reviewed", "weak-reviewed"),
        ("from weak-reviewed to weak-reviewed", "weak-reviewed", "weak-reviewed"),
        ("from reviewed to strong-reviewed", "reviewed", "reviewed"),
        ("from reviewed to reviewed", "reviewed", "reviewed"),
        ("from reviewed to weak-reviewed", "weak-reviewed", "weak-reviewed"),
        ("from strong-reviewed to strong-reviewed", "strong-reviewed", "reviewed"),
        ("from strong-reviewed to reviewed", "reviewed", "reviewed"),
        ("from strong-reviewed to weak-reviewed", "weak-reviewed", "weak-reviewed"),
    ];
    let wanted: String = expected
        .iter()
        .map(|(descr, first, second)| {
            format!("{}\n  third-party1: [{:?}]\n  third-party2: [{:?}]\n", descr, first, second)
        })
        .collect();
    assert_eq!(output, wanted);
}

#[test]
fn a_suggested_audit_vets_the_package() {
    let mut store = reviewed_store();
    store
        .audits
        .audits
        .insert("third-party2".to_string(), vec![full_audit(ver(4), "reviewed")]);
    let graph = graph_of(&[
        mock("root-package", vec![dep("third-party2")]),
        third_party("third-party2", vec![]),
    ]);
    let report = run(&graph, &store);
    assert_eq!(
        report.compute_suggested_criteria("third-party2", Some(&ver(4)), &ver(10)),
        names(&["reviewed"])
    );
    assert_eq!(
        report.compute_suggested_criteria("third-party2", Some(&ver(5)), &ver(10)),
        Vec::<String>::new()
    );
    store.audits.audits.insert(
        "third-party2".to_string(),
        vec![full_audit(ver(4), "reviewed"), delta_audit(ver(4), ver(10), "reviewed")],
    );
    let report = run(&graph, &store);
    assert!(matches!(report.conclusion, Conclusion::Success(_)));
    assert_eq!(
        report.compute_suggested_criteria("third-party2", Some(&ver(4)), &ver(10)),
        Vec::<String>::new()
    );
}

fn regenerate() -> UpdateModes {
    UpdateModes::uniform(UpdateMode {
        search_mode: SearchMode::RegenerateExemptions,
        prune_exemptions: true,
        prune_non_importable_audits: true,
        prune_imports: true,
    })
}

#[test]
fn regenerated_exemptions_vet_everything() {
    let graph = simple();
    let mut store = reviewed_store();
    store.audits.audits.insert(
        "third-party2".to_string(),
        vec![delta_audit(ver(9), ver(10), "strong-reviewed")],
    );
    assert!(run(&graph, &store).has_errors());
    let updates = get_store_updates(&graph, CargoResolverVersion::V2, &store, &regenerate());
    assert_eq!(updates.exemptions.len(), 3);
    update_store(&graph, CargoResolverVersion::V2, &mut store, &regenerate());
    assert_eq!(store.config.exemptions, updates.exemptions);
    assert_eq!(
        store.config.exemptions.get("third-party2"),
        Some(&vec![ExemptedDependency {
            version: ver(9),
            criteria: names(&["reviewed"]),
            suggest: true,
            notes: None,
        }])
    );
    let report = run(&graph, &store);
    assert!(!report.has_errors());
    // Nothing is left to change.
    let again = get_store_updates(&graph, CargoResolverVersion::V2, &store, &regenerate());
    assert_eq!(again.exemptions, store.config.exemptions);
}

/// A workspace whose one dependency has to meet some criteria.
fn asking(declared: &[(&str, &[&str])], asked: &[&str]) -> (PackageGraph, Store) {
    let graph = graph_of(&[
        mock("root-package", vec![dep("third-party1")]),
        third_party("third-party1", vec![]),
    ]);
    let mut store = reviewed_store();
    for (name, implies) in declared {
        store.audits.criteria.insert(
            name.to_string(),
            CriteriaEntry { description: None, implies: names(implies) },
        );
    }
    let mut entry = no_policy();
    entry.criteria = Some(names(asked));
    entry.dev_criteria = Some(names(asked));
    set_policy(&mut store, "root-package", entry);
    (graph, store)
}

fn succeeds_when_regenerated(graph: &PackageGraph, store: &mut Store, prune: bool) -> bool {
    let modes = UpdateModes::uniform(UpdateMode {
        search_mode: SearchMode::RegenerateExemptions,
        prune_exemptions: prune,
        prune_non_importable_audits: prune,
        prune_imports: prune,
    });
    update_store(graph, CargoResolverVersion::V2, store, &modes);
    !run(graph, store).has_errors()
}

/// Neither a criterion named like a built-in one nor criteria that imply each
/// other, but are not required, or are implied by what is required, do harm.
#[test]
fn regenerating_succeeds_with_odd_criteria() {
    for prune in [false, true] {
        let (graph, mut store) =
            asking(&[("safe-to-run", &["a"]), ("a", &["b"]), ("b", &["a"])], &["safe-to-run"]);
        assert!(succeeds_when_regenerated(&graph, &mut store, prune));
        let (graph, mut store) = asking(&[("a", &["b"]), ("b", &["a"]), ("c", &["a"])], &["c"]);
        assert!(succeeds_when_regenerated(&graph, &mut store, prune));
    }
}

/// Of required criteria that imply each other none is exempted from.
#[test]
fn required_criteria_that_imply_each_other_are_not_exempted_from() {
    for prune in [false, true] {
        let (graph, mut store) = asking(&[("a", &["b"]), ("b", &["a"])], &["a"]);
        assert!(!succeeds_when_regenerated(&graph, &mut store, prune));
        assert_eq!(store.config.exemptions.len(), 0);
    }
}

/// An exemption from criteria that imply each other and the required one exempts
/// from nothing once it is written down again.
#[test]
fn exemptions_from_criteria_that_imply_each_other_are_lost() {
    for prune in [false, true] {
        let (graph, mut store) =
            asking(&[("a", &["b", "low"]), ("b", &["a"]), ("low", &[])], &["low"]);
        let exempt = |criteria: Vec<String>| ExemptedDependency {
            version: ver(10),
            criteria,
            suggest: true,
            notes: None,
        };
        store
            .config
            .exemptions
            .insert("third-party1".to_string(), vec![exempt(names(&["a"]))]);
        assert!(!run(&graph, &store).has_errors());
        assert_eq!(succeeds_when_regenerated(&graph, &mut store, prune), prune);
        let left = if prune { names(&["low"]) } else { vec![] };
        assert_eq!(store.config.exemptions.get("third-party1"), Some(&vec![exempt(left)]));
    }
}

/// An update is what `get_store_updates` gives, applied.
#[test]
fn update_store_applies_the_updates() {
    let graph = simple();
    let prepared = || {
        let mut store = reviewed_store();
        let mut unused = full_audit(ver(3), "reviewed");
        unused.importable = false;
        store.audits.audits.insert("third-party1".to_string(), vec![unused]);
        let mut peer = no_audits();
        let mut fresh = full_audit(ver(10), "reviewed");
        fresh.is_fresh_import = true;
        peer.audits.insert("third-party2".to_string(), vec![fresh]);
        let mut live = no_imports();
        live.audits.insert("peer".to_string(), peer);
        store.live_imports = Some(live);
        store
    };
    let mut store = prepared();
    let updates = get_store_updates(&graph, CargoResolverVersion::V2, &store, &regenerate());
    update_store(&graph, CargoResolverVersion::V2, &mut store, &regenerate());
    assert_eq!(store.audits.audits, updates.audits);
    assert_eq!(store.imports, updates.imports);
    assert_eq!(store.config.exemptions, updates.exemptions);
    assert_eq!(store.audits.audits.get("third-party1"), Some(&vec![]));
    assert_eq!(
        store.imports.audits.get("peer").unwrap().audits.get("third-party2"),
        Some(&vec![full_audit(ver(10), "reviewed")])
    );
    let before = prepared();
    assert_eq!(store.audits.criteria, before.audits.criteria);
    assert_eq!(store.audits.wildcard_audits, before.audits.wildcard_audits);
    assert_eq!(store.audits.trusted, before.audits.trusted);
    assert_eq!(store.config.policy, before.config.policy);
    assert_eq!(store.live_imports, before.live_imports);
    let mut again = prepared();
    updates.apply(&mut again);
    assert_eq!(again.config.exemptions, store.config.exemptions);
}

#[test]
fn an_update_imports_what_is_needed_and_keeps_vetting() {
    let graph = graph_of(&[
        mock("root-package", vec![dep("third-party2")]),
        third_party("third-party2", vec![]),
    ]);
    let mut store = reviewed_store();
    let fresh = |mut entry: AuditEntry| {
        entry.is_fresh_import = true;
        entry
    };
    let mut peer = no_audits();
    peer.audits.insert(
        "third-party2".to_string(),
        vec![
            fresh(full_audit(ver(7), "reviewed")),
            fresh(full_audit(ver(10), "reviewed")),
            full_audit(ver(3), "reviewed"),
        ],
    );
    peer.audits.insert("unrelated".to_string(), vec![fresh(full_audit(ver(1), "reviewed"))]);
    let mut live = no_imports();
    live.audits.insert("peer".to_string(), peer);
    store.live_imports = Some(live);
    let modes = UpdateModes::uniform(UpdateMode {
        search_mode: SearchMode::PreferExemptions,
        prune_exemptions: false,
        prune_non_importable_audits: false,
        prune_imports: false,
    });
    update_store(&graph, CargoResolverVersion::V2, &mut store, &modes);
    // Something new is imported, so what is not needed goes.
    let kept = store.imports.audits.get("peer").unwrap();
    assert_eq!(
        kept.audits.get("third-party2"),
        Some(&vec![full_audit(ver(10), "reviewed")])
    );
    assert_eq!(kept.audits.get("unrelated"), None);
    store.live_imports = None;
    assert!(!run(&graph, &store).has_errors());
}
