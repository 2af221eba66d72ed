use cargo_vet::dev_features::{DevFeatureErrors, Feature, FeatureError, PackageFeatures};
use cargo_vet::packages::{EnabledTernary, Link, LinkStatus, Package};
use cargo_vet::policy::{check_crate_policies, CratePolicyErrors, PackageError};
use cargo_vet::records::{ConfigFile, PackagePolicyEntry, PolicyEntry, RootPolicy};
use cargo_vet::sorted_map::SortedMap;
use cargo_vet::version::{Version, VetVersion};

fn ver(major: u64) -> VetVersion {
    VetVersion {
        semver: Version { major, minor: 0, patch: 0, pre: vec![], build: vec![] },
        git_rev: None,
    }
}

fn link(to: usize, dep_name: &str) -> Link {
    let never = LinkStatus {
        required: EnabledTernary::Disabled,
        enabled: EnabledTernary::Disabled,
    };
    Link {
        to,
        dep_name: dep_name.to_string(),
        normal: LinkStatus { required: EnabledTernary::Enabled, enabled: EnabledTernary::Enabled },
        development: never,
        build: never,
    }
}

fn package(name: &str, version: u64, crates_io: bool, links: Vec<Link>) -> Package {
    Package {
        id: format!("{} {}", name, version),
        name: name.to_string(),
        version: ver(version),
        crates_io,
        proc_macro: false,
        build_script: false,
        links,
    }
}

/// A package of the workspace has the name of one from the registry that it
/// depends on.
fn overlapping() -> Vec<Package> {
    vec![
        package("third-party", 1, false, vec![link(1, "third-party")]),
        package("third-party", 2, true, vec![]),
    ]
}

fn no_policy() -> PolicyEntry {
    PolicyEntry {
        audit_as_crates_io: None,
        criteria: None,
        dev_criteria: None,
        dependency_criteria: SortedMap::new(),
        dev_features: vec![],
    }
}

fn dep_criteria_policy_entry() -> PolicyEntry {
    let mut entry = no_policy();
    entry.dependency_criteria.insert("foo".to_string(), vec!["bar".to_string()]);
    entry
}

fn package_features(in_workspace: bool, features: &[(&str, &[&str])]) -> PackageFeatures {
    PackageFeatures {
        in_workspace,
        features: features
            .iter()
            .map(|(name, enables)| Feature {
                name: name.to_string(),
                enables: enables.iter().map(|f| f.to_string()).collect(),
            })
            .collect(),
    }
}

fn no_feature_errors() -> DevFeatureErrors {
    DevFeatureErrors { outside_workspace: vec![], unknown: vec![], implied: vec![] }
}

fn check(name: &str, entry: PackagePolicyEntry) -> Result<(), CratePolicyErrors> {
    let features = vec![package_features(true, &[]), package_features(false, &[])];
    check_features(&overlapping(), &features, name, entry)
}

fn check_features(
    packages: &Vec<Package>,
    features: &Vec<PackageFeatures>,
    name: &str,
    entry: PackagePolicyEntry,
) -> Result<(), CratePolicyErrors> {
    let mut config = ConfigFile {
        root_policy: RootPolicy { criteria: None, dev_criteria: None },
        policy: SortedMap::new(),
        exemptions: SortedMap::new(),
    };
    config.policy.insert(name.to_string(), entry);
    check_crate_policies(packages, features, &config)
}

fn error(package: &str, version: Option<u64>) -> PackageError {
    PackageError { package: package.to_string(), version: version.map(ver) }
}

/// If a third-party crate is present, and an unversioned policy is used without
/// `dependency-criteria`, no error occurs.
#[test]
fn simple_crate_policies_third_party_crates_dont_need_versions() {
    assert_eq!(check("third-party", PackagePolicyEntry::Unversioned(no_policy())), Ok(()));
}

/// If a third-party crate is present, and an unversioned policy is used with
/// `dependency-criteria`, versions need to be specified.
#[test]
fn simple_crate_policies_third_party_crates_imply_versions() {
    assert_eq!(
        check("third-party", PackagePolicyEntry::Unversioned(dep_criteria_policy_entry())),
        Err(CratePolicyErrors {
            needs_policy_version: vec![
                error("third-party", Some(1)),
                error("third-party", Some(2)),
            ],
            unused_policy: vec![],
            dev_features: no_feature_errors(),
        })
    );
}

/// If a third-party crate is present and a versioned policy with
/// `dependency-criteria` is used for one version, versions are needed for other
/// versions (regardless of whether they are considered first- or third-party).
#[test]
fn simple_crate_policies_third_party_crates_need_all_versions() {
    for which in [1, 2] {
        assert_eq!(
            check(
                "third-party",
                PackagePolicyEntry::Versioned {
                    version: vec![(ver(which), dep_criteria_policy_entry())],
                },
            ),
            Err(CratePolicyErrors {
                needs_policy_version: vec![error("third-party", Some(3 - which))],
                unused_policy: vec![],
                dev_features: no_feature_errors(),
            })
        );
    }
}

/// Policies for versions which are not present in the graph are errors.
#[test]
fn simple_crate_policies_extraneous_crate_versions() {
    assert_eq!(
        check(
            "third-party",
            PackagePolicyEntry::Versioned {
                version: vec![
                    (ver(1), no_policy()),
                    (ver(2), no_policy()),
                    (ver(3), no_policy()),
                ],
            },
        ),
        Err(CratePolicyErrors {
            needs_policy_version: vec![],
            unused_policy: vec![error("third-party", Some(3))],
            dev_features: no_feature_errors(),
        })
    );
}

/// Policies for crates which are not present in the graph are errors.
#[test]
fn simple_crate_policies_extraneous_crates() {
    assert_eq!(
        check("non-existent", PackagePolicyEntry::Unversioned(no_policy())),
        Err(CratePolicyErrors {
            needs_policy_version: vec![],
            unused_policy: vec![error("non-existent", None)],
            dev_features: no_feature_errors(),
        })
    );
}

/// All versions of a policy with `dependency-criteria` are given.
#[test]
fn versioned_policies_for_all_versions_are_accepted() {
    assert_eq!(
        check(
            "third-party",
            PackagePolicyEntry::Versioned {
                version: vec![
                    (ver(1), dep_criteria_policy_entry()),
                    (ver(2), dep_criteria_policy_entry()),
                ],
            },
        ),
        Ok(())
    );
}

#[test]
fn a_policy_can_make_a_package_third_party() {
    let p = package("first-party", 1, false, vec![]);
    let mut policy: SortedMap<PackagePolicyEntry> = SortedMap::new();
    assert!(!p.is_third_party(&policy));
    let mut entry = no_policy();
    entry.audit_as_crates_io = Some(true);
    policy.insert("first-party".to_string(), PackagePolicyEntry::Unversioned(entry));
    assert!(p.is_third_party(&policy));
    assert!(p.policy_entry(&policy).is_some());
    assert!(package("third-party", 1, true, vec![]).is_third_party(&policy));
}

#[test]
fn a_versioned_policy_is_for_its_version() {
    let mut policy: SortedMap<PackagePolicyEntry> = SortedMap::new();
    policy.insert(
        "third-party".to_string(),
        PackagePolicyEntry::Versioned { version: vec![(ver(2), dep_criteria_policy_entry())] },
    );
    let packages = overlapping();
    assert!(packages[0].policy_entry(&policy).is_none());
    assert_eq!(packages[1].policy_entry(&policy), Some(&dep_criteria_policy_entry()));
}

/// A policy for `root`, a package of the workspace: `feat2` enables `feat`, which
/// enables `third-party`.
fn check_root(dev_features: &[&str]) -> Result<(), CratePolicyErrors> {
    let features: &[(&str, &[&str])] =
        &[("feat", &["third-party"]), ("feat2", &["feat"]), ("third-party", &[])];
    let mut entry = no_policy();
    entry.dev_features = dev_features.iter().map(|f| f.to_string()).collect();
    check_features(
        &vec![package("root", 1, false, vec![])],
        &vec![package_features(true, features)],
        "root",
        PackagePolicyEntry::Unversioned(entry),
    )
}

fn feature_error(feature: &str, implied_by: Option<&str>) -> FeatureError {
    FeatureError {
        package: "root".to_string(),
        version: ver(1),
        feature: feature.to_string(),
        implied_by: implied_by.map(|f| f.to_string()),
    }
}

#[test]
fn features_are_left_to_development_with_all_that_enable_them() {
    assert_eq!(check_root(&[]), Ok(()));
    assert_eq!(check_root(&["feat2"]), Ok(()));
    assert_eq!(check_root(&["feat", "feat2"]), Ok(()));
    assert_eq!(check_root(&["third-party", "feat", "feat2"]), Ok(()));
    let errors = check_root(&["third-party", "feat"]).unwrap_err();
    assert_eq!(errors.dev_features.implied, vec![feature_error("feat", Some("feat2"))]);
    assert_eq!(errors.dev_features.unknown, vec![]);
    assert_eq!(errors.unused_policy, vec![]);
}

#[test]
fn all_feature_errors_are_told() {
    let errors = check_root(&["other", "third-party"]).unwrap_err();
    assert_eq!(
        errors.dev_features,
        DevFeatureErrors {
            outside_workspace: vec![],
            unknown: vec![feature_error("other", None)],
            implied: vec![feature_error("third-party", Some("feat"))],
        }
    );
}

#[test]
fn features_outside_the_workspace_cannot_be_left_to_development() {
    let mut entry = no_policy();
    entry.dev_features = vec!["feat".to_string()];
    let errors = check_features(
        &vec![package("third-party", 1, true, vec![])],
        &vec![package_features(false, &[("feat", &[])])],
        "third-party",
        PackagePolicyEntry::Unversioned(entry),
    )
    .unwrap_err();
    assert_eq!(errors.dev_features.outside_workspace, vec![error("third-party", Some(1))]);
    assert_eq!(errors.dev_features.unknown, vec![]);
    assert_eq!(errors.dev_features.implied, vec![]);
}
