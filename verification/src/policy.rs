//! Whether policies fit the packages of a build.

use vstd::prelude::*;
use crate::dev_features;
use crate::dev_features::{check_dev_features, DevFeatureErrors, PackageFeatures};
use crate::packages::Package;
use crate::records::{ConfigFile, PackagePolicyEntry, PolicyEntry};
use crate::sorted_map;
use crate::sorted_map::SortedMap;
use crate::text::text_eq;
use crate::version;
use crate::version::{version_eq, VetVersion, VetVersionView};

verus! {

/// A package, or one version of it, whose policy is wrong.
#[derive(Debug, PartialEq, Eq)]
pub struct PackageError {
    pub package: String,
    pub version: Option<VetVersion>,
}

/// The contents of a [`PackageError`].
#[verifier::ext_equal]
pub struct PackageErrorView {
    pub package: Seq<char>,
    pub version: Option<VetVersionView>,
}

impl View for PackageError {
    type V = PackageErrorView;

    open spec fn view(&self) -> PackageErrorView {
        PackageErrorView { package: self.package@, version: version::node(self.version) }
    }
}

/// What is wrong with the policies.
#[derive(Debug, PartialEq, Eq)]
pub struct CratePolicyErrors {
    /// Versions of the build that need a policy of their own.
    pub needs_policy_version: Vec<PackageError>,
    /// Policies for packages or versions that the build does not have.
    pub unused_policy: Vec<PackageError>,
    /// Features that policies cannot leave to development.
    pub dev_features: DevFeatureErrors,
}

/// Whether a package of the build has a name.
pub open spec fn is_built(packages: Seq<Package>, name: Seq<char>) -> bool {
    exists|p: int| 0 <= p < packages.len() && (#[trigger] packages[p]).name@ == name
}

/// Whether the build has a version of a package.
pub open spec fn is_version_built(
    packages: Seq<Package>,
    name: Seq<char>,
    v: VetVersionView,
) -> bool {
    exists|p: int|
        0 <= p < packages.len() && (#[trigger] packages[p]).name@ == name && packages[p].version@
            == v
}

/// Whether some version of a package needs audits.
pub open spec fn is_third_party_name(
    packages: Seq<Package>,
    policy: SortedMap<PackagePolicyEntry>,
    name: Seq<char>,
) -> bool {
    exists|p: int|
        0 <= p < packages.len() && (#[trigger] packages[p]).name@ == name
            && packages[p].third_party(policy)
}

/// Whether a policy states criteria for dependencies.
pub open spec fn has_dependency_criteria(entry: PackagePolicyEntry) -> bool {
    match entry {
        PackagePolicyEntry::Unversioned(e) => e.dependency_criteria.entries().len() > 0,
        PackagePolicyEntry::Versioned { version: list } => exists|k: int|
            0 <= k < list@.len() && (
            #[trigger] list@[k]).1.dependency_criteria.entries().len() > 0,
    }
}

/// Whether a policy is for one version.
pub open spec fn names_version(entry: PackagePolicyEntry, v: VetVersionView) -> bool {
    match entry {
        PackagePolicyEntry::Unversioned(_) => false,
        PackagePolicyEntry::Versioned { version: list } => lists_version(list@, v),
    }
}

/// Whether one of some policies is for a version.
pub open spec fn lists_version(list: Seq<(VetVersion, PolicyEntry)>, v: VetVersionView) -> bool {
    exists|k: int| 0 <= k < list.len() && (#[trigger] list[k]).0@ == v
}

/// Whether a package needs a policy for its version: if some version of it needs
/// audits and a policy for it states criteria for dependencies, all versions do.
pub open spec fn lacks_version(
    packages: Seq<Package>,
    policy: SortedMap<PackagePolicyEntry>,
    p: int,
) -> bool {
    is_third_party_name(packages, policy, packages[p].name@) && (policy.get_spec(
        packages[p].name@,
    ) matches Some(entry) && has_dependency_criteria(entry) && !names_version(
        entry,
        packages[p].version@,
    ))
}

/// The versions that need a policy of their own.
pub open spec fn lacking(
    packages: Seq<Package>,
    policy: SortedMap<PackagePolicyEntry>,
    n: nat,
) -> Seq<PackageErrorView>
    decreases n,
{
    if n == 0 {
        Seq::empty()
    } else {
        let rest = lacking(packages, policy, (n - 1) as nat);
        if lacks_version(packages, policy, n - 1) {
            rest.push(
                PackageErrorView {
                    package: packages[n - 1].name@,
                    version: Some(packages[n - 1].version@),
                },
            )
        } else {
            rest
        }
    }
}

/// The versions of a policy that the build does not have.
pub open spec fn unused_versions(
    packages: Seq<Package>,
    name: Seq<char>,
    list: Seq<(VetVersion, PolicyEntry)>,
) -> Seq<PackageErrorView>
    decreases list.len(),
{
    if list.len() == 0 {
        Seq::empty()
    } else {
        let rest = unused_versions(packages, name, list.drop_last());
        if is_version_built(packages, name, list.last().0@) {
            rest
        } else {
            rest.push(PackageErrorView { package: name, version: Some(list.last().0@) })
        }
    }
}

/// What of a policy is for packages or versions that the build does not have.
pub open spec fn unused_of(packages: Seq<Package>, name: Seq<char>, entry: PackagePolicyEntry) -> Seq<
    PackageErrorView,
> {
    if !is_built(packages, name) {
        seq![PackageErrorView { package: name, version: None }]
    } else {
        match entry {
            PackagePolicyEntry::Unversioned(_) => Seq::empty(),
            PackagePolicyEntry::Versioned { version: list } => unused_versions(
                packages,
                name,
                list@,
            ),
        }
    }
}

/// What of the policies is for packages or versions that the build does not
/// have.
pub open spec fn unused(packages: Seq<Package>, s: Seq<(String, PackagePolicyEntry)>) -> Seq<
    PackageErrorView,
>
    decreases s.len(),
{
    if s.len() == 0 {
        Seq::empty()
    } else {
        unused(packages, s.drop_last()) + unused_of(packages, s.last().0@, s.last().1)
    }
}

fn find_version(packages: &Vec<Package>, name: &str, v: &VetVersion) -> (r: bool)
    ensures
        r == is_version_built(packages@, name@, v@),
{
    let mut p: usize = 0;
    while p < packages.len()
        invariant
            p <= packages@.len(),
            forall|x: int|
                0 <= x < p ==> !((#[trigger] packages@[x]).name@ == name@ && packages@[x].version@
                    == v@),
        decreases packages@.len() - p,
    {
        if text_eq(packages[p].name.as_str(), name) && version_eq(&packages[p].version, v) {
            return true;
        }
        p = p + 1;
    }
    false
}

fn find_name(packages: &Vec<Package>, name: &str) -> (r: bool)
    ensures
        r == is_built(packages@, name@),
{
    let mut p: usize = 0;
    while p < packages.len()
        invariant
            p <= packages@.len(),
            forall|x: int| 0 <= x < p ==> (#[trigger] packages@[x]).name@ != name@,
        decreases packages@.len() - p,
    {
        if text_eq(packages[p].name.as_str(), name) {
            return true;
        }
        p = p + 1;
    }
    false
}

fn find_third_party(
    packages: &Vec<Package>,
    policy: &SortedMap<PackagePolicyEntry>,
    name: &str,
) -> (r: bool)
    ensures
        r == is_third_party_name(packages@, *policy, name@),
{
    let mut p: usize = 0;
    while p < packages.len()
        invariant
            p <= packages@.len(),
            forall|x: int|
                0 <= x < p ==> !((#[trigger] packages@[x]).name@ == name@
                    && packages@[x].third_party(*policy)),
        decreases packages@.len() - p,
    {
        if text_eq(packages[p].name.as_str(), name) && packages[p].is_third_party(policy) {
            return true;
        }
        p = p + 1;
    }
    false
}

fn states_dependency_criteria(entry: &PackagePolicyEntry) -> (r: bool)
    ensures
        r == has_dependency_criteria(*entry),
{
    match entry {
        PackagePolicyEntry::Unversioned(e) => e.dependency_criteria.len() > 0,
        PackagePolicyEntry::Versioned { version: list } => {
            let mut k: usize = 0;
            while k < list.len()
                invariant
                    *entry == (PackagePolicyEntry::Versioned { version: *list }),
                    k <= list@.len(),
                    forall|x: int|
                        0 <= x < k ==> (
                        #[trigger] list@[x]).1.dependency_criteria.entries().len() == 0,
                decreases list@.len() - k,
            {
                if list[k].1.dependency_criteria.len() > 0 {
                    assert(list@[k as int].1.dependency_criteria.entries().len() > 0);
                    return true;
                }
                k = k + 1;
            }
            false
        },
    }
}

fn is_for_version(entry: &PackagePolicyEntry, v: &VetVersion) -> (r: bool)
    ensures
        r == names_version(*entry, v@),
{
    match entry {
        PackagePolicyEntry::Unversioned(_) => false,
        PackagePolicyEntry::Versioned { version: list } => contains_version(list, v),
    }
}

fn contains_version(list: &Vec<(VetVersion, PolicyEntry)>, v: &VetVersion) -> (r: bool)
    ensures
        r == lists_version(list@, v@),
{
    let mut k: usize = 0;
    while k < list.len()
        invariant
            k <= list@.len(),
            forall|x: int| 0 <= x < k ==> (#[trigger] list@[x]).0@ != v@,
        decreases list@.len() - k,
    {
        if version_eq(&list[k].0, v) {
            assert(list@[k as int].0@ == v@);
            return true;
        }
        k = k + 1;
    }
    false
}

fn list_lacking(packages: &Vec<Package>, policy: &SortedMap<PackagePolicyEntry>) -> (r: Vec<
    PackageError,
>)
    ensures
        sorted_map::views(r@) == lacking(packages@, *policy, packages@.len()),
{
    let mut r: Vec<PackageError> = Vec::new();
    let mut p: usize = 0;
    assert(sorted_map::views(r@) =~= lacking(packages@, *policy, 0));
    while p < packages.len()
        invariant
            p <= packages@.len(),
            sorted_map::views(r@) == lacking(packages@, *policy, p as nat),
        decreases packages@.len() - p,
    {
        let ghost before = sorted_map::views(r@);
        let package = &packages[p];
        let name = package.name.as_str();
        let lacks = match policy.get(name) {
            Some(entry) => find_third_party(packages, policy, name) && states_dependency_criteria(
                entry,
            ) && !is_for_version(entry, &package.version),
            None => false,
        };
        assert(lacks == lacks_version(packages@, *policy, p as int));
        if lacks {
            let e = PackageError {
                package: package.name.clone(),
                version: Some(package.version.clone()),
            };
            r.push(e);
            assert(sorted_map::views(r@) =~= before.push(e@));
        }
        p = p + 1;
    }
    r
}

fn push_unused(
    out: &mut Vec<PackageError>,
    packages: &Vec<Package>,
    name: &String,
    entry: &PackagePolicyEntry,
)
    ensures
        sorted_map::views(final(out)@) == sorted_map::views(old(out)@) + unused_of(
            packages@,
            name@,
            *entry,
        ),
{
    let ghost before = sorted_map::views(out@);
    if !find_name(packages, name.as_str()) {
        let e = PackageError { package: name.clone(), version: None };
        out.push(e);
        assert(sorted_map::views(out@) =~= before + unused_of(packages@, name@, *entry));
        return;
    }
    match entry {
        PackagePolicyEntry::Unversioned(_) => {
            assert(sorted_map::views(out@) =~= before + unused_of(packages@, name@, *entry));
        },
        PackagePolicyEntry::Versioned { version: list } => {
            let ghost l = list@;
            let mut k: usize = 0;
            assert(sorted_map::views(out@) =~= before + unused_versions(
                packages@,
                name@,
                l.take(0),
            ));
            while k < list.len()
                invariant
                    l == list@,
                    k <= list@.len(),
                    sorted_map::views(out@) == before + unused_versions(
                        packages@,
                        name@,
                        l.take(k as int),
                    ),
                decreases list@.len() - k,
            {
                let ghost mid = sorted_map::views(out@);
                proof {
                    assert(l.take(k + 1).drop_last() =~= l.take(k as int));
                    assert(l.take(k + 1).last() == l[k as int]);
                }
                if !find_version(packages, name.as_str(), &list[k].0) {
                    let e = PackageError {
                        package: name.clone(),
                        version: Some(list[k].0.clone()),
                    };
                    out.push(e);
                    assert(sorted_map::views(out@) =~= mid.push(e@));
                }
                assert(sorted_map::views(out@) =~= before + unused_versions(
                    packages@,
                    name@,
                    l.take(k + 1),
                ));
                k = k + 1;
            }
            assert(l.take(k as int) =~= l);
        },
    }
}

fn list_unused(packages: &Vec<Package>, policy: &SortedMap<PackagePolicyEntry>) -> (r: Vec<
    PackageError,
>)
    ensures
        sorted_map::views(r@) == unused(packages@, policy.entries()),
{
    let ghost e = policy.entries();
    let mut r: Vec<PackageError> = Vec::new();
    let mut k: usize = 0;
    assert(sorted_map::views(r@) =~= unused(packages@, e.take(0)));
    while k < policy.len()
        invariant
            e == policy.entries(),
            k <= e.len(),
            sorted_map::views(r@) == unused(packages@, e.take(k as int)),
        decreases e.len() - k,
    {
        proof {
            assert(e.take(k + 1).drop_last() =~= e.take(k as int));
            assert(e.take(k + 1).last() == e[k as int]);
        }
        push_unused(&mut r, packages, policy.key_at(k), policy.value_at(k));
        k = k + 1;
    }
    assert(e.take(k as int) =~= e);
    r
}

/// Checks that policies are for packages and versions that the build has, that
/// versions have policies of their own where that matters, and that the features
/// that are left to development can be.
pub fn check_crate_policies(
    packages: &Vec<Package>,
    features: &Vec<PackageFeatures>,
    config: &ConfigFile,
) -> (r: Result<(), CratePolicyErrors>)
    requires
        features@.len() == packages@.len(),
    ensures
        ({
            let n = packages@.len();
            let a = lacking(packages@, config.policy, n);
            let b = unused(packages@, config.policy.entries());
            let c = dev_features::outside(packages@, features@, config.policy, n);
            let d = dev_features::unknown(packages@, features@, config.policy, n);
            let e = dev_features::implied(packages@, features@, config.policy, n);
            let ok = a.len() == 0 && b.len() == 0 && c.len() == 0 && d.len() == 0 && e.len() == 0;
            match r {
                Ok(_) => ok,
                Err(errors) => {
                    &&& !ok
                    &&& sorted_map::views(errors.needs_policy_version@) == a
                    &&& sorted_map::views(errors.unused_policy@) == b
                    &&& sorted_map::views(errors.dev_features.outside_workspace@) == c
                    &&& sorted_map::views(errors.dev_features.unknown@) == d
                    &&& sorted_map::views(errors.dev_features.implied@) == e
                },
            }
        }),
{
    let needs_policy_version = list_lacking(packages, &config.policy);
    let unused_policy = list_unused(packages, &config.policy);
    let dev_features = check_dev_features(packages, features, &config.policy);
    assert(sorted_map::views(needs_policy_version@).len() == needs_policy_version@.len());
    assert(sorted_map::views(unused_policy@).len() == unused_policy@.len());
    assert(sorted_map::views(dev_features.outside_workspace@).len()
        == dev_features.outside_workspace@.len());
    assert(sorted_map::views(dev_features.unknown@).len() == dev_features.unknown@.len());
    assert(sorted_map::views(dev_features.implied@).len() == dev_features.implied@.len());
    if needs_policy_version.len() == 0 && unused_policy.len() == 0
        && dev_features.outside_workspace.len() == 0 && dev_features.unknown.len() == 0
        && dev_features.implied.len() == 0 {
        Ok(())
    } else {
        Err(CratePolicyErrors { needs_policy_version, unused_policy, dev_features })
    }
}

} // verus!
