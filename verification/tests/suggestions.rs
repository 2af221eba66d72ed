use cargo_vet::audit_graph::SearchFailure;
use cargo_vet::criteria::{CriteriaMapper, CriteriaSet};
use cargo_vet::delta::{
    plan_delta, recommend_delta, recommend_nothing, Delta, DiffRecommendation, DiffStat,
};
use cargo_vet::json::JsonReportConclusion;
use cargo_vet::packages::{EnabledTernary, Link, LinkStatus, Package};
use cargo_vet::print::{diff_warning, short_list_to_text, Span, Style};
use cargo_vet::records::{
    AuditEntry, AuditKind, AuditsFile, ConfigFile, CratesSourceId, CriteriaEntry, ImportsFile,
    RootPolicy, Store, TrustEntry,
};
use cargo_vet::resolve::{resolve_audits, Conclusion, ResolveReport};
use cargo_vet::sorted_map::SortedMap;
use cargo_vet::suggest::{
    asks_registry, criteria_to_text, find_import_target, find_publisher, find_trust_source,
    is_sole_publisher, list_publishers, list_trusted_by, notable_parents, rank_registry,
    registry_failures, CratesPublisherSource, PackageSuggestion, RegistrySuggestion, Release,
    Suggest, TrustHint,
};
use cargo_vet::version::{Version, VetVersion};

fn semver(major: u64) -> Version {
    Version { major, minor: 0, patch: 0, pre: vec![], build: vec![] }
}

fn ver(major: u64) -> VetVersion {
    VetVersion { semver: semver(major), git_rev: None }
}

fn git(major: u64, rev: &str) -> VetVersion {
    VetVersion { semver: semver(major), git_rev: Some(rev.to_string()) }
}

fn names(list: &[&str]) -> Vec<String> {
    list.iter().map(|s| s.to_string()).collect()
}

fn failure(root: &[u64], target: &[u64]) -> SearchFailure {
    let mut reachable_from_root: Vec<Option<VetVersion>> = vec![None];
    reachable_from_root.extend(root.iter().map(|v| Some(ver(*v))));
    SearchFailure {
        reachable_from_root,
        reachable_from_target: target.iter().map(|v| Some(ver(*v))).collect(),
    }
}

fn change(from: Option<u64>, to: u64) -> Delta {
    Delta { from: from.map(ver), to: ver(to) }
}

fn lines(insertions: u64, deletions: u64) -> DiffStat {
    DiffStat { insertions, deletions, files_changed: 1 }
}

#[test]
fn nothing_is_planned_if_nothing_failed() {
    assert!(plan_delta(&ver(10), &vec![], None).is_none());
    assert_eq!(
        recommend_nothing(&ver(10)),
        DiffRecommendation {
            from: Some(ver(10)),
            to: ver(10),
            diffstat: DiffStat { insertions: 0, deletions: 0, files_changed: 0 },
        }
    );
}

#[test]
fn the_closest_versions_on_both_sides_are_candidates() {
    let f = failure(&[2, 4, 12, 13], &[10]);
    let plan = plan_delta(&ver(10), &vec![&f], None).unwrap();
    assert_eq!(plan.candidates, vec![change(Some(4), 10), change(Some(12), 10)]);
    assert_eq!(plan.extra, None);
    let f = failure(&[], &[6, 10]);
    let plan = plan_delta(&ver(10), &vec![&f], None).unwrap();
    assert_eq!(plan.candidates, vec![change(None, 6), change(None, 10)]);
}

#[test]
fn candidates_make_up_for_all_failures() {
    let a = failure(&[2, 4], &[6, 10]);
    let b = failure(&[2], &[10]);
    let plan = plan_delta(&ver(10), &vec![&a, &b], None).unwrap();
    assert_eq!(plan.candidates, vec![change(Some(2), 10)]);
}

#[test]
fn only_published_versions_have_sources() {
    let f = failure(&[2, 4], &[6, 10]);
    let known = vec![semver(2), semver(10)];
    let plan = plan_delta(&ver(10), &vec![&f], Some(&known)).unwrap();
    assert_eq!(plan.candidates, vec![change(Some(2), 10)]);
}

#[test]
fn a_git_revision_is_audited_after_the_published_version() {
    let rev = git(10, "abc");
    let f = SearchFailure {
        reachable_from_root: vec![None, Some(ver(4)), Some(git(5, "other"))],
        reachable_from_target: vec![Some(rev.clone())],
    };
    let known = vec![semver(4), semver(8), semver(11)];
    let plan = plan_delta(&rev, &vec![&f], Some(&known)).unwrap();
    assert_eq!(plan.candidates, vec![change(Some(4), 8)]);
    assert_eq!(plan.extra, Some(Delta { from: Some(ver(8)), to: rev.clone() }));
    // Without knowledge, the version that it is based on counts as published.
    let plan = plan_delta(&rev, &vec![&f], None).unwrap();
    assert_eq!(plan.candidates, vec![change(Some(4), 10)]);
    assert_eq!(plan.extra, Some(Delta { from: Some(ver(10)), to: rev.clone() }));
    // Once the published version is audited, the revision is next.
    let f = SearchFailure {
        reachable_from_root: vec![None, Some(ver(8))],
        reachable_from_target: vec![Some(rev.clone())],
    };
    let plan = plan_delta(&rev, &vec![&f], Some(&known)).unwrap();
    assert_eq!(plan.candidates, vec![Delta { from: Some(ver(8)), to: rev }]);
    assert_eq!(plan.extra, None);
}

#[test]
fn the_smallest_change_is_recommended() {
    let f = failure(&[2, 12], &[6, 10]);
    let plan = plan_delta(&ver(10), &vec![&f], None).unwrap();
    assert_eq!(plan.candidates.len(), 4);
    let stats = vec![
        Some(lines(30, 0)),
        None,
        Some(lines(10, 5)),
        Some(lines(5, 10)),
    ];
    let (best, extra) = recommend_delta(&plan, &stats, None).unwrap();
    assert_eq!(
        best,
        DiffRecommendation { from: Some(ver(2)), to: ver(10), diffstat: lines(10, 5) }
    );
    assert_eq!(best.diffstat.count(), 15);
    assert_eq!(extra, None);
    assert!(recommend_delta(&plan, &vec![None, None, None, None], None).is_none());
}

#[test]
fn the_extra_change_is_recommended_if_it_can_be_diffed() {
    let rev = git(10, "abc");
    let f = SearchFailure {
        reachable_from_root: vec![None],
        reachable_from_target: vec![Some(rev.clone())],
    };
    let plan = plan_delta(&rev, &vec![&f], None).unwrap();
    let stats = vec![Some(lines(100, 0))];
    let (best, extra) = recommend_delta(&plan, &stats, Some(lines(1, 1))).unwrap();
    assert_eq!(best.to, ver(10));
    assert_eq!(
        extra,
        Some(DiffRecommendation { from: Some(ver(10)), to: rev, diffstat: lines(1, 1) })
    );
    assert_eq!(recommend_delta(&plan, &stats, None).unwrap().1, None);
}

fn user(user_id: u64) -> CratesSourceId {
    CratesSourceId::User { user_id }
}

fn trust(user_id: u64) -> TrustEntry {
    TrustEntry {
        criteria: names(&["safe-to-deploy"]),
        source: user(user_id),
        start: 0,
        end: 1,
        notes: None,
        aggregated_from: vec![],
    }
}

fn no_audits() -> AuditsFile {
    AuditsFile {
        criteria: SortedMap::new(),
        wildcard_audits: SortedMap::new(),
        audits: SortedMap::new(),
        trusted: SortedMap::new(),
    }
}

fn trusting() -> Store {
    let mut audits = no_audits();
    audits.trusted.insert("own".to_string(), vec![trust(1)]);
    let mut imported: SortedMap<AuditsFile> = SortedMap::new();
    for (name, users) in [("peer-b", vec![2]), ("peer-a", vec![1, 2])] {
        let mut file = no_audits();
        file.trusted.insert("some".to_string(), users.into_iter().map(trust).collect());
        imported.insert(name.to_string(), file);
    }
    Store {
        config: ConfigFile {
            root_policy: RootPolicy { criteria: None, dev_criteria: None },
            policy: SortedMap::new(),
            exemptions: SortedMap::new(),
        },
        audits,
        imports: ImportsFile {
            unpublished: SortedMap::new(),
            publisher: SortedMap::new(),
            audits: imported,
        },
        live_imports: None,
    }
}

#[test]
fn trust_of_the_project_hides_that_of_others() {
    let store = trusting();
    assert_eq!(list_trusted_by(&store, &user(1)), names(&["this project"]));
    assert_eq!(list_trusted_by(&store, &user(2)), names(&["peer-a", "peer-b"]));
    assert_eq!(list_trusted_by(&store, &user(3)), Vec::<String>::new());
}

#[test]
fn hints_prefer_the_publisher_of_the_version() {
    let store = trusting();
    let releases = vec![user(1), user(2), user(3)];
    let t = find_trust_source(&store, "pkg", Some(&user(1)), &releases).unwrap();
    assert_eq!(t.source, user(1));
    assert!(t.exact_version);
    let t = find_trust_source(&store, "pkg", Some(&user(3)), &releases).unwrap();
    assert_eq!(t.source, user(2));
    assert!(!t.exact_version);
    assert_eq!(t.trusted_by, names(&["peer-a", "peer-b"]));
    assert!(find_trust_source(&store, "own", Some(&user(3)), &releases).is_none());
    assert!(find_trust_source(&store, "own", Some(&user(2)), &releases).is_some());
    assert!(find_trust_source(&store, "pkg", None, &vec![user(3)]).is_none());
}

#[test]
fn a_sole_publisher_published_everything() {
    assert!(is_sole_publisher(&vec![user(1), user(1)]));
    assert!(!is_sole_publisher(&vec![user(1), user(2)]));
    assert!(!is_sole_publisher(&vec![]));
}

#[test]
fn publishers_are_those_of_releases() {
    let release = |major: u64, source: Option<CratesSourceId>| Release {
        version: semver(major),
        source,
    };
    let releases = vec![
        release(1, Some(user(1))),
        release(2, None),
        release(3, Some(user(2))),
        release(4, Some(user(1))),
    ];
    assert_eq!(find_publisher(&releases, &ver(3)), Some(&user(2)));
    assert_eq!(find_publisher(&releases, &ver(2)), None);
    assert_eq!(find_publisher(&releases, &ver(5)), None);
    assert_eq!(find_publisher(&releases, &git(3, "abc")), None);
    assert_eq!(list_publishers(&releases), vec![user(1), user(2), user(1)]);
}

#[test]
fn imports_are_to_vet_published_versions() {
    let diff = |from: Option<VetVersion>, to: VetVersion| DiffRecommendation {
        from,
        to,
        diffstat: lines(1, 0),
    };
    let rev = git(10, "abc");
    let plain = diff(Some(ver(4)), ver(9));
    assert_eq!(find_import_target(&ver(10), &plain, &None), Some(ver(10)));
    let extra = Some(diff(Some(ver(9)), rev.clone()));
    assert_eq!(find_import_target(&rev, &plain, &extra), Some(ver(9)));
    assert_eq!(find_import_target(&rev, &diff(None, rev.clone()), &None), None);
}

#[test]
fn failed_diffs_are_told() {
    let delta = Delta { from: Some(ver(4)), to: git(9, "abc") };
    assert_eq!(delta.to_text(), "4.0.0 -> 9.0.0@git:abc");
    assert_eq!(
        diff_warning("dep", &change(None, 9), "not found"),
        "error diffing dep:9.0.0: not found"
    );
}

fn registry(name: &str, insertions: u64) -> RegistrySuggestion {
    RegistrySuggestion {
        name: name.to_string(),
        url: names(&["https://example.com/audits.toml"]),
        diff: DiffRecommendation {
            from: None,
            to: ver(10),
            diffstat: lines(insertions, 0),
        },
    }
}

#[test]
fn only_imports_that_help_are_suggested() {
    let suggested =
        DiffRecommendation { from: None, to: ver(10), diffstat: lines(20, 0) };
    let found = vec![
        registry("same", 20),
        registry("late", 19),
        registry("none", 0),
        registry("also-late", 19),
    ];
    let ranked: Vec<String> =
        rank_registry(&found, &suggested).into_iter().map(|r| r.name).collect();
    assert_eq!(ranked, names(&["none", "late", "also-late"]));
}

fn audit(version: u64, criteria: &str) -> AuditEntry {
    AuditEntry {
        who: vec![],
        criteria: names(&[criteria]),
        kind: AuditKind::Full { version: ver(version) },
        importable: true,
        notes: None,
        aggregated_from: vec![],
        is_fresh_import: false,
    }
}

#[test]
fn audits_of_the_registry_may_leave_failures() {
    let store = trusting();
    let m = CriteriaMapper::new(&store.audits.criteria);
    let all = m.all_criteria();
    let mut audits = no_audits();
    audits.audits.insert("pkg".to_string(), vec![audit(10, "safe-to-run")]);
    let left = registry_failures(&store, &m, "pkg", &audits, &ver(10), &all).unwrap();
    assert_eq!(
        left,
        vec![SearchFailure {
            reachable_from_root: vec![None],
            reachable_from_target: vec![Some(ver(10))],
        }]
    );
    audits.audits.insert("pkg".to_string(), vec![audit(10, "safe-to-deploy")]);
    let left = registry_failures(&store, &m, "pkg", &audits, &ver(10), &all).unwrap();
    assert_eq!(left, vec![]);
}

fn link(to: usize) -> Link {
    let always = LinkStatus { required: EnabledTernary::Enabled, enabled: EnabledTernary::Enabled };
    Link {
        to,
        dep_name: "dep".to_string(),
        normal: always,
        development: always,
        build: always,
    }
}

fn package(name: &str, version: u64, crates_io: bool, links: Vec<Link>) -> Package {
    Package {
        id: format!("{}@{}", name, version),
        name: name.to_string(),
        version: ver(version),
        crates_io,
        proc_macro: false,
        build_script: false,
        links,
    }
}

/// Two versions of a package and another one, all of them without audits.
fn failed() -> ResolveReport {
    let packages = vec![
        package("root", 1, false, vec![link(2), link(3)]),
        package("other", 1, false, vec![link(2), link(4)]),
        package("dep", 9, true, vec![]),
        package("dep", 10, true, vec![]),
        package("a-dep", 1, true, vec![]),
    ];
    let mut store = trusting();
    for (name, implies) in [("low", vec![]), ("high", vec!["low"])] {
        store.audits.criteria.insert(
            name.to_string(),
            CriteriaEntry { description: None, implies: names(&implies) },
        );
    }
    let criteria_mapper = CriteriaMapper::new(&store.audits.criteria);
    let asked = criteria_mapper.criteria_from_name("low");
    let none = CriteriaSet::none();
    let (results, conclusion) = resolve_audits(
        &packages,
        &store,
        &criteria_mapper,
        &vec![none, none, asked, asked, asked],
    );
    ResolveReport { criteria_mapper, packages, results, conclusion }
}

fn suggestion(package: usize, criteria: CriteriaSet, diff: DiffRecommendation) -> PackageSuggestion {
    PackageSuggestion {
        package,
        suggested_criteria: criteria,
        suggested_diff: diff,
        extra_diff: None,
        publisher_login: None,
        trust_hint: None,
        is_sole_publisher: false,
        registry_suggestion: vec![],
    }
}

fn recommend(from: Option<u64>, to: u64, stat: DiffStat) -> DiffRecommendation {
    DiffRecommendation { from: from.map(ver), to: ver(to), diffstat: stat }
}

fn suggest(report: &ResolveReport) -> Suggest {
    let low = report.criteria_mapper.criteria_from_name("low");
    let mut last = suggestion(4, low, recommend(None, 1, lines(30, 0)));
    last.publisher_login = Some("alice".to_string());
    last.trust_hint = Some(TrustHint {
        trusted_by: names(&["peer-a", "peer-b"]),
        publisher: CratesPublisherSource {
            identifier: "alice".to_string(),
            title: "Alice (alice)".to_string(),
        },
        exact_version: false,
    });
    last.registry_suggestion = vec![registry("none", 0), registry("late", 19)];
    report
        .compute_suggest(
            vec![
                last,
                suggestion(2, low, recommend(Some(8), 9, lines(10, 2))),
                suggestion(3, low, recommend(Some(8), 9, lines(10, 2))),
            ],
            names(&["something is odd"]),
        )
        .unwrap()
}

#[test]
fn failed_packages_are_listed_by_name_and_version() {
    let report = failed();
    let fail = match &report.conclusion {
        Conclusion::FailForVet(fail) => fail,
        _ => panic!("vetting did not fail"),
    };
    let order: Vec<usize> = fail.failures.iter().map(|(p, _)| *p).collect();
    assert_eq!(order, vec![4, 2, 3]);
    assert_eq!(report.search_failures(0).len(), 1);
    assert_eq!(
        *report.search_failures(1)[0],
        SearchFailure {
            reachable_from_root: vec![None],
            reachable_from_target: vec![Some(ver(9))],
        }
    );
}

#[test]
fn parents_depend_on_a_package() {
    let report = failed();
    assert_eq!(notable_parents(&report.packages, 2), names(&["root", "other"]));
    assert_eq!(notable_parents(&report.packages, 0), Vec::<String>::new());
}

#[test]
fn equal_suggestions_are_merged() {
    let report = failed();
    let s = suggest(&report);
    assert_eq!(s.suggestions.len(), 2);
    assert_eq!(s.total_lines, 42);
    assert_eq!(s.suggestions[0].suggested_diff.to, ver(9));
    assert_eq!(s.suggestions[0].notable_parents, names(&["other", "root"]));
    assert_eq!(s.suggestions[1].notable_parents, names(&["other"]));
    assert_eq!(s.warnings, names(&["something is odd"]));
    let low = report.criteria_mapper.criteria_from_name("low");
    assert_eq!(criteria_to_text(&report.criteria_mapper, &low), "low (or high)");
    assert_eq!(s.suggestions_by_criteria.len(), 1);
    assert_eq!(s.suggestions_by_criteria.get("low (or high)").unwrap().len(), 2);
}

/// Suggestions for the same audit need not stand side by side.
#[test]
fn equal_suggestions_are_merged_wherever_they_stand() {
    let report = failed();
    let low = report.criteria_mapper.criteria_from_name("low");
    let s = report
        .compute_suggest(
            vec![
                suggestion(2, low, recommend(Some(8), 9, lines(10, 2))),
                suggestion(2, low, recommend(Some(7), 9, lines(10, 2))),
                suggestion(3, low, recommend(Some(8), 9, lines(10, 2))),
            ],
            vec![],
        )
        .unwrap();
    let diffs: Vec<DiffRecommendation> =
        s.suggestions.iter().map(|item| item.suggested_diff.clone()).collect();
    assert_eq!(
        diffs,
        vec![recommend(Some(8), 9, lines(10, 2)), recommend(Some(7), 9, lines(10, 2))]
    );
    assert_eq!(s.suggestions[0].package, 2);
    assert_eq!(s.suggestions[0].notable_parents, names(&["other", "root"]));
    assert_eq!(s.total_lines, 24);
}

#[test]
fn suggestions_are_for_what_failed() {
    let report = failed();
    let s = report.suggestion_for(
        1,
        recommend(Some(8), 9, lines(10, 2)),
        None,
        Some("alice".to_string()),
        None,
        true,
        vec![registry("late", 5)],
    );
    assert_eq!(s.package, 2);
    assert_eq!(s.suggested_criteria, report.criteria_mapper.criteria_from_name("low"));
    assert_eq!(s.suggested_diff, recommend(Some(8), 9, lines(10, 2)));
    assert_eq!(s.extra_diff, None);
    assert_eq!(s.publisher_login, Some("alice".to_string()));
    assert!(s.trust_hint.is_none());
    assert!(s.is_sole_publisher);
    assert_eq!(s.registry_suggestion.len(), 1);
}

#[test]
fn the_registry_is_asked_for_people_with_a_network() {
    assert!(asks_registry(false, true, true));
    assert!(!asks_registry(true, true, true));
    assert!(!asks_registry(false, false, true));
    assert!(!asks_registry(false, true, false));
}

#[test]
fn an_extra_change_is_suggested_by_itself() {
    let report = failed();
    let low = report.criteria_mapper.criteria_from_name("low");
    let mut item = suggestion(2, low, recommend(None, 8, lines(50, 0)));
    item.extra_diff = Some(recommend(Some(8), 9, lines(3, 0)));
    item.is_sole_publisher = true;
    let s = report.compute_suggest(vec![item], vec![]).unwrap();
    assert_eq!(s.suggestions.len(), 2);
    assert_eq!(s.suggestions[0].suggested_diff, recommend(Some(8), 9, lines(3, 0)));
    assert!(!s.suggestions[0].is_sole_publisher);
    assert!(s.suggestions[1].is_sole_publisher);
    assert_eq!(s.total_lines, 53);
}

fn text_of(spans: &[Span]) -> String {
    spans.iter().map(|s| s.text.as_str()).collect()
}

#[test]
fn suggestions_are_told_in_columns() {
    let report = failed();
    let s = suggest(&report);
    let spans = report.print_suggest_human(Some(&s));
    let text = text_of(&spans);
    assert_eq!(
        text,
        "recommended audits for low (or high):\n    \
         Command                         Publisher  Used By         Audit Size\n    \
         cargo vet diff dep 8.0.0 9.0.0  UNKNOWN    other and root  \
         1 files changed, 10 insertions(+), 2 deletions(-)\n    \
         cargo vet inspect a-dep 1.0.0   alice      other           30 lines\n      \
         NOTE: cargo vet import none would eliminate this\n      \
         NOTE: cargo vet import late would reduce this to a 19-line diff\n      \
         NOTE: peer-a and peer-b trust Alice (alice), who published another version of this crate \
         - consider cargo vet trust a-dep alice\n\n\
         estimated audit backlog: 42 lines\n\nWARNING: something is odd\n\n\
         Use |cargo vet certify| to record the audits.\n"
    );
    assert!(spans.iter().any(|s| s.style == Style::Yellow && s.text == "WARNING"));
    assert!(spans
        .iter()
        .any(|s| s.style == Style::DimCyanBold && s.text == "cargo vet import none"));
    let whole = text_of(&report.print_human(Some(&s)));
    assert!(whole.starts_with("Vetting Failed!\n\n3 unvetted dependencies:\n  a-dep:1.0.0 "));
    assert!(whole.ends_with(&text));
}

#[test]
fn a_sole_publisher_can_be_trusted_for_everything() {
    let report = failed();
    let low = report.criteria_mapper.criteria_from_name("low");
    let mut item = suggestion(4, low, recommend(None, 1, lines(1, 0)));
    item.is_sole_publisher = true;
    item.trust_hint = Some(TrustHint {
        trusted_by: names(&["this project"]),
        publisher: CratesPublisherSource {
            identifier: "alice".to_string(),
            title: "Alice (alice)".to_string(),
        },
        exact_version: true,
    });
    let s = report.compute_suggest(vec![item], vec![]).unwrap();
    let text = text_of(&report.print_suggest_human(Some(&s)));
    assert!(text.contains(
        "      NOTE: this project trusts Alice (alice) - consider cargo vet trust a-dep or \
         cargo vet trust --all alice\n"
    ));
}

#[test]
fn long_commands_are_wrapped() {
    let mut report = failed();
    report.packages[4].name = "a-dep-with-a-name-that-is-far-too-long-for-one-column".to_string();
    let low = report.criteria_mapper.criteria_from_name("low");
    let item = suggestion(4, low, recommend(None, 1, lines(1, 0)));
    let s = report.compute_suggest(vec![item], vec![]).unwrap();
    let text = text_of(&report.print_suggest_human(Some(&s)));
    let line = format!(
        "    cargo vet inspect a-dep-with-a-name-that-is-far-too-long-for-one-column 1.0.0\n{}  \
         UNKNOWN    other    1 lines\n",
        " ".repeat(56)
    );
    assert!(text.contains(&line));
}

#[test]
fn wide_characters_take_two_columns() {
    let report = failed();
    let low = report.criteria_mapper.criteria_from_name("low");
    let mut item = suggestion(4, low, recommend(None, 1, lines(1, 0)));
    item.publisher_login = Some("\u{4f60}\u{597d}\u{4f60}\u{597d}\u{4f60}\u{597d}".to_string());
    let s = report.compute_suggest(vec![item], vec![]).unwrap();
    let text = text_of(&report.print_suggest_human(Some(&s)));
    // The heading is padded to the width on screen, which is twice the length.
    assert!(text.contains("  Publisher     Used By"));
}

#[test]
fn nothing_to_suggest_is_told() {
    let report = failed();
    assert_eq!(
        text_of(&report.print_suggest_human(None)),
        "Nothing to suggest, you're fully audited!\n"
    );
}

#[test]
fn suggestions_are_reported_as_data() {
    let report = failed();
    let s = suggest(&report);
    match report.print_json(Some(&s)).conclusion {
        JsonReportConclusion::FailForVet(f) => {
            let s = f.suggest.unwrap();
            assert_eq!(s.total_lines, 42);
            assert_eq!(s.suggestions.len(), 2);
            assert_eq!(s.suggestions[0].name, "dep");
            assert_eq!(s.suggestions[0].notable_parents, "other and root");
            assert_eq!(s.suggestions[0].suggested_criteria, names(&["low"]));
            assert_eq!(s.suggest_by_criteria.get("low (or high)").unwrap().len(), 2);
        }
        _ => panic!("vetting did not fail"),
    }
}

#[test]
fn long_lists_are_shortened() {
    assert_eq!(short_list_to_text(&names(&[])), "");
    assert_eq!(short_list_to_text(&names(&["a"])), "a");
    assert_eq!(short_list_to_text(&names(&["a", "b"])), "a and b");
    assert_eq!(short_list_to_text(&names(&["a", "b", "c"])), "a, b, and c");
    assert_eq!(short_list_to_text(&names(&["a", "b", "c", "d"])), "a, b, and 2 others");
}

#[test]
fn diffs_are_told_as_git_does() {
    assert_eq!(lines(3, 4).to_text(), "1 files changed, 3 insertions(+), 4 deletions(-)");
    assert_eq!(lines(0, 0).to_text(), "1 files changed");
}
