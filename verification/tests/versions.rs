use cargo_vet::order::{sort, sort_positions};
use cargo_vet::version::{node_eq, semver_eq, version_eq, Version, VetVersion};

fn parts(s: &str) -> Vec<String> {
    s.split('.').filter(|p| !p.is_empty()).map(|p| p.to_string()).collect()
}

fn version(major: u64, pre: &str, build: &str) -> VetVersion {
    VetVersion {
        semver: Version { major, minor: 0, patch: 0, pre: parts(pre), build: parts(build) },
        git_rev: None,
    }
}

fn revision(rev: &str) -> VetVersion {
    VetVersion { git_rev: Some(rev.to_string()), ..version(1, "", "") }
}

#[test]
fn versions_are_ordered_by_precedence() {
    let ordered = || {
        vec![
            version(1, "alpha", ""),
            version(1, "alpha.1", ""),
            version(1, "alpha.beta", ""),
            version(1, "beta", ""),
            version(1, "beta.2", ""),
            version(1, "beta.11", ""),
            version(1, "rc.1", ""),
            version(1, "", ""),
            revision("aaa"),
            revision("bbb"),
            version(1, "", "1"),
            version(1, "", "02"),
            version(1, "", "2a"),
            version(2, "", ""),
            version(10, "", ""),
        ]
    };
    let mut shuffled = ordered();
    shuffled.reverse();
    shuffled.swap(2, 9);
    let texts =
        |list: Vec<VetVersion>| -> Vec<String> { list.iter().map(|v| v.to_text()).collect() };
    assert_eq!(texts(sort(shuffled)), texts(ordered()));
}

#[test]
fn absent_versions_come_first() {
    let list: Vec<Option<VetVersion>> = vec![Some(version(1, "", "")), None];
    assert_eq!(sort(list), vec![None, Some(version(1, "", ""))]);
}

#[test]
fn sorting_is_stable() {
    let keys = vec![vec![2], vec![1, 5], vec![2], vec![1], vec![1, 5]];
    assert_eq!(sort_positions(keys), vec![3, 1, 4, 0, 2]);
}

#[test]
fn versions_are_written_as_they_are_read() {
    assert_eq!(version(1, "", "").to_text(), "1.0.0");
    assert_eq!(version(1, "rc.1", "5.x").to_text(), "1.0.0-rc.1+5.x");
    assert_eq!(revision("aaa").to_text(), "1.0.0@git:aaa");
}

#[test]
fn versions_are_the_same_if_all_parts_are() {
    assert!(version_eq(&version(1, "rc.1", ""), &version(1, "rc.1", "")));
    assert!(!version_eq(&version(1, "rc.1", ""), &version(1, "rc.2", "")));
    assert!(!version_eq(&version(1, "", ""), &revision("aaa")));
    assert!(semver_eq(&version(1, "", "").semver, &revision("aaa").semver));
    assert!(!semver_eq(&version(1, "", "1").semver, &version(1, "", "01").semver));
    assert!(node_eq(&None, &None));
    assert!(!node_eq(&None, &Some(version(1, "", ""))));
    assert_eq!(revision("aaa").as_semver(), None);
    assert_eq!(version(1, "", "").as_semver(), Some(&version(1, "", "").semver));
}

#[test]
fn versions_are_read_from_their_text() {
    let versions = vec![
        version(1, "", ""),
        version(10, "alpha.1.x-y", ""),
        version(1, "", "007.b"),
        version(2, "rc.1", "build.5"),
        revision("00112233445566778899aabbccddeeff00112233"),
        VetVersion { git_rev: Some("abc".to_string()), ..version(3, "beta", "x") },
    ];
    for v in versions {
        assert_eq!(VetVersion::parse(&v.to_text()), Some(v));
    }
    assert_eq!(VetVersion::parse("1.2.3"), Some(VetVersion {
        semver: Version { major: 1, minor: 2, patch: 3, pre: vec![], build: vec![] },
        git_rev: None,
    }));
    assert_eq!(
        VetVersion::parse("1.0.0-alpha.4+build@git:cafe").unwrap().semver.pre,
        parts("alpha.4")
    );
}

#[test]
fn texts_that_are_no_versions_are_refused() {
    for text in ["", "1", "1.0", "01.0.0", "1.0.0-01", "1.0.0@", "1.0.0@svn:1", "1.0.0@git", "@git:a"] {
        assert_eq!(VetVersion::parse(text), None);
    }
}
