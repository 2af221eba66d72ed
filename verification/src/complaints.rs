//! What is wrong with policies.

use vstd::prelude::*;
use crate::dev_features;
use crate::dev_features::{Feature, FeatureErrorView, PackageFeatures};
use crate::packages::Package;
use crate::policy;
use crate::policy::{check_crate_policies, CratePolicyErrors, PackageErrorView};
use crate::records::{ConfigFile, PackagePolicyEntry, PolicyEntry};
use crate::sorted_map;
use crate::sorted_map::SortedMap;
use crate::text;
use crate::version::VetVersion;

verus! {

/// Whether a version of the build needs a policy of its own: some version of the
/// package needs audits, and a policy states criteria for its dependencies, but none
/// is for this version.
pub open spec fn is_lacking(
    packages: Seq<Package>,
    policies: SortedMap<PackagePolicyEntry>,
    p: int,
) -> bool {
    let name = packages[p].name@;
    &&& 0 <= p < packages.len()
    &&& exists|q: int|
        0 <= q < packages.len() && (#[trigger] packages[q]).name@ == name
            && packages[q].third_party(policies)
    &&& policies.get_spec(name) matches Some(found) && match found {
        PackagePolicyEntry::Unversioned(e) => e.dependency_criteria.entries().len() > 0,
        PackagePolicyEntry::Versioned { version: list } => {
            &&& exists|k: int|
                0 <= k < list@.len() && (
                #[trigger] list@[k]).1.dependency_criteria.entries().len() > 0
            &&& forall|k: int|
                0 <= k < list@.len() ==> (#[trigger] list@[k]).0@ != packages[p].version@
        },
    }
}

/// Whether a policy is for a package that the build does not have.
pub open spec fn is_unused_name(
    packages: Seq<Package>,
    policies: SortedMap<PackagePolicyEntry>,
    k: int,
) -> bool {
    0 <= k < policies.entries().len() && forall|p: int|
        0 <= p < packages.len() ==> (#[trigger] packages[p]).name@ != policies.entries()[k].0@
}

/// Whether a policy is for a version that the build does not have, of a package that
/// it has.
pub open spec fn is_unused_version(
    packages: Seq<Package>,
    policies: SortedMap<PackagePolicyEntry>,
    k: int,
    v: VetVersion,
) -> bool {
    let name = policies.entries()[k].0@;
    &&& 0 <= k < policies.entries().len()
    &&& exists|p: int| 0 <= p < packages.len() && (#[trigger] packages[p]).name@ == name
    &&& policies.entries()[k].1 matches PackagePolicyEntry::Versioned { version: list } && exists|
        j: int,
    |
        0 <= j < list@.len() && (#[trigger] list@[j]).0 == v
    &&& forall|p: int|
        0 <= p < packages.len() && (#[trigger] packages[p]).name@ == name ==> packages[p].version@
            != v@
}

/// Whether the policy for a package leaves a feature to development.
pub open spec fn is_left_to_dev(
    packages: Seq<Package>,
    policies: SortedMap<PackagePolicyEntry>,
    p: int,
    feature: Seq<char>,
) -> bool {
    0 <= p < packages.len() && (packages[p].policy(policies) matches Some(found) && exists|j: int|
        0 <= j < found.dev_features@.len() && (#[trigger] found.dev_features@[j])@ == feature)
}

/// Whether a feature that is left to development does not exist, of a package of the
/// workspace.
pub open spec fn is_unknown(
    packages: Seq<Package>,
    features: Seq<PackageFeatures>,
    policies: SortedMap<PackagePolicyEntry>,
    p: int,
    feature: Seq<char>,
) -> bool {
    &&& is_left_to_dev(packages, policies, p, feature)
    &&& features[p].in_workspace
    &&& forall|k: int|
        0 <= k < features[p].features@.len() ==> (#[trigger] features[p].features@[k]).name@
            != feature
}

/// Whether a feature that is left to development is enabled by one that is not, of a
/// package of the workspace.
pub open spec fn is_implied(
    packages: Seq<Package>,
    features: Seq<PackageFeatures>,
    policies: SortedMap<PackagePolicyEntry>,
    p: int,
    feature: Seq<char>,
    by: Seq<char>,
) -> bool {
    &&& is_left_to_dev(packages, policies, p, feature)
    &&& features[p].in_workspace
    &&& !is_left_to_dev(packages, policies, p, by)
    &&& exists|k: int, j: int|
        0 <= k < features[p].features@.len() && features[p].features@[k].name@ == by && 0 <= j
            < features[p].features@[k].enables@.len() && (
        #[trigger] features[p].features@[k].enables@[j])@ == feature
}

proof fn lemma_push<V>(s: Seq<V>, y: V, x: V)
    ensures
        s.push(y).contains(x) <==> s.contains(x) || x == y,
{
    let r = s.push(y);
    if s.contains(x) {
        let j = choose|j: int| 0 <= j < s.len() && s[j] == x;
        assert(r[j] == x);
    }
    if x == y {
        assert(r[s.len() as int] == x);
    }
    if r.contains(x) {
        let j = choose|j: int| 0 <= j < r.len() && r[j] == x;
        if j < s.len() {
            assert(s[j] == x);
        }
    }
}

proof fn lemma_concat<V>(a: Seq<V>, b: Seq<V>, x: V)
    ensures
        (a + b).contains(x) <==> a.contains(x) || b.contains(x),
{
    let r = a + b;
    if a.contains(x) {
        let j = choose|j: int| 0 <= j < a.len() && a[j] == x;
        assert(r[j] == x);
    }
    if b.contains(x) {
        let j = choose|j: int| 0 <= j < b.len() && b[j] == x;
        assert(r[a.len() + j] == x);
    }
    if r.contains(x) {
        let j = choose|j: int| 0 <= j < r.len() && r[j] == x;
        if j < a.len() {
            assert(a[j] == x);
        } else {
            assert(b[j - a.len()] == x);
        }
    }
}

proof fn lemma_lacking(
    packages: Seq<Package>,
    policies: SortedMap<PackagePolicyEntry>,
    n: nat,
    x: PackageErrorView,
)
    requires
        n <= packages.len(),
    ensures
        policy::lacking(packages, policies, n).contains(x) <==> exists|p: int|
            p < n && #[trigger] is_lacking(packages, policies, p) && x.package
                == packages[p].name@ && x.version == Some(packages[p].version@),
    decreases n,
{
    if n > 0 {
        let rest = policy::lacking(packages, policies, (n - 1) as nat);
        let p = n - 1;
        let y = PackageErrorView {
            package: packages[p].name@,
            version: Some(packages[p].version@),
        };
        lemma_lacking(packages, policies, (n - 1) as nat, x);
        lemma_push(rest, y, x);
        assert(policy::lacks_version(packages, policies, p) == is_lacking(packages, policies, p));
        if x.package == packages[p].name@ && x.version == Some(packages[p].version@) {
            assert(x =~= y);
        }
    }
}

proof fn lemma_unused_versions(
    packages: Seq<Package>,
    name: Seq<char>,
    list: Seq<(VetVersion, PolicyEntry)>,
    x: PackageErrorView,
)
    ensures
        policy::unused_versions(packages, name, list).contains(x) <==> x.package == name && exists|
            j: int,
        |
            0 <= j < list.len() && x.version == Some((#[trigger] list[j]).0@)
                && !policy::is_version_built(packages, name, list[j].0@),
    decreases list.len(),
{
    if list.len() > 0 {
        let t = list.drop_last();
        let n = list.len() - 1;
        let rest = policy::unused_versions(packages, name, t);
        let y = PackageErrorView { package: name, version: Some(list.last().0@) };
        lemma_unused_versions(packages, name, t, x);
        lemma_push(rest, y, x);
        if exists|j: int|
            0 <= j < t.len() && x.version == Some((#[trigger] t[j]).0@)
                && !policy::is_version_built(packages, name, t[j].0@) {
            let j = choose|j: int|
                0 <= j < t.len() && x.version == Some((#[trigger] t[j]).0@)
                    && !policy::is_version_built(packages, name, t[j].0@);
            assert(list[j] == t[j]);
        }
        if exists|j: int|
            0 <= j < list.len() && x.version == Some((#[trigger] list[j]).0@)
                && !policy::is_version_built(packages, name, list[j].0@) {
            let j = choose|j: int|
                0 <= j < list.len() && x.version == Some((#[trigger] list[j]).0@)
                    && !policy::is_version_built(packages, name, list[j].0@);
            if j < n {
                assert(t[j] == list[j]);
            } else if x.package == name {
                assert(x =~= y);
            }
        }
        assert(list[n] == list.last());
    }
}

proof fn lemma_unused(
    packages: Seq<Package>,
    s: Seq<(String, PackagePolicyEntry)>,
    x: PackageErrorView,
)
    ensures
        policy::unused(packages, s).contains(x) <==> exists|k: int|
            0 <= k < s.len() && policy::unused_of(
                packages,
                (#[trigger] s[k]).0@,
                s[k].1,
            ).contains(x),
    decreases s.len(),
{
    if s.len() > 0 {
        let t = s.drop_last();
        let n = s.len() - 1;
        lemma_unused(packages, t, x);
        lemma_concat(
            policy::unused(packages, t),
            policy::unused_of(packages, s.last().0@, s.last().1),
            x,
        );
        assert(s[n] == s.last());
        if policy::unused(packages, t).contains(x) {
            let k = choose|k: int|
                0 <= k < t.len() && policy::unused_of(
                    packages,
                    (#[trigger] t[k]).0@,
                    t[k].1,
                ).contains(x);
            assert(s[k] == t[k]);
        }
        if exists|k: int|
            0 <= k < s.len() && policy::unused_of(
                packages,
                (#[trigger] s[k]).0@,
                s[k].1,
            ).contains(x) {
            let k = choose|k: int|
                0 <= k < s.len() && policy::unused_of(
                    packages,
                    (#[trigger] s[k]).0@,
                    s[k].1,
                ).contains(x);
            if k < n {
                assert(t[k] == s[k]);
            }
        }
    }
}

proof fn lemma_unused_of(
    packages: Seq<Package>,
    policies: SortedMap<PackagePolicyEntry>,
    k: int,
    x: PackageErrorView,
)
    requires
        0 <= k < policies.entries().len(),
    ensures
        policy::unused_of(
            packages,
            policies.entries()[k].0@,
            policies.entries()[k].1,
        ).contains(x) <==> x.package == policies.entries()[k].0@ && (is_unused_name(
            packages,
            policies,
            k,
        ) && x.version is None || exists|v: VetVersion| #[trigger]
            is_unused_version(packages, policies, k, v) && x.version == Some(v@)),
{
    let name = policies.entries()[k].0@;
    let found = policies.entries()[k].1;
    let y = PackageErrorView { package: name, version: None };
    if !policy::is_built(packages, name) {
        let one = seq![y];
        assert(policy::unused_of(packages, name, found) == one);
        assert(one[0] == y);
        if x.package == name && x.version is None {
            assert(x =~= y);
        }
    } else if let PackagePolicyEntry::Versioned { version: list } = found {
        lemma_unused_versions(packages, name, list@, x);
        if x.package == name && exists|v: VetVersion| #[trigger]
            is_unused_version(packages, policies, k, v) && x.version == Some(v@) {
            let v = choose|v: VetVersion| #[trigger]
                is_unused_version(packages, policies, k, v) && x.version == Some(v@);
            let j = choose|j: int| 0 <= j < list@.len() && (#[trigger] list@[j]).0 == v;
            assert(x.version == Some(list@[j].0@));
        }
        if policy::unused_versions(packages, name, list@).contains(x) {
            let j = choose|j: int|
                0 <= j < list@.len() && x.version == Some((#[trigger] list@[j]).0@)
                    && !policy::is_version_built(packages, name, list@[j].0@);
            assert(is_unused_version(packages, policies, k, list@[j].0));
        }
    }
}

proof fn lemma_left(
    packages: Seq<Package>,
    policies: SortedMap<PackagePolicyEntry>,
    p: int,
    feature: Seq<char>,
)
    requires
        0 <= p < packages.len(),
    ensures
        dev_features::left_to_dev(packages[p], policies).contains(feature) <==> is_left_to_dev(
            packages,
            policies,
            p,
            feature,
        ),
{
    let dev = dev_features::left_to_dev(packages[p], policies);
    if let Some(found) = packages[p].policy(policies) {
        if dev.contains(feature) {
            let j = choose|j: int| 0 <= j < dev.len() && dev[j] == feature;
            assert(found.dev_features@[j]@ == feature);
        }
        if is_left_to_dev(packages, policies, p, feature) {
            let j = choose|j: int|
                0 <= j < found.dev_features@.len() && (#[trigger] found.dev_features@[j])@
                    == feature;
            assert(dev[j] == feature);
        }
    }
}

proof fn lemma_outside(
    packages: Seq<Package>,
    features: Seq<PackageFeatures>,
    policies: SortedMap<PackagePolicyEntry>,
    n: nat,
    x: PackageErrorView,
)
    requires
        n <= packages.len(),
    ensures
        dev_features::outside(packages, features, policies, n).contains(x) <==> exists|
            p: int,
            f: Seq<char>,
        |
            p < n && #[trigger] is_left_to_dev(packages, policies, p, f)
                && !features[p].in_workspace && x.package == packages[p].name@ && x.version
                == Some(packages[p].version@),
    decreases n,
{
    if n > 0 {
        let p = n - 1;
        let rest = dev_features::outside(packages, features, policies, (n - 1) as nat);
        let y = PackageErrorView {
            package: packages[p].name@,
            version: Some(packages[p].version@),
        };
        let dev = dev_features::left_to_dev(packages[p], policies);
        lemma_outside(packages, features, policies, (n - 1) as nat, x);
        lemma_push(rest, y, x);
        if dev.len() > 0 {
            assert(dev.contains(dev[0]));
            lemma_left(packages, policies, p, dev[0]);
            assert(is_left_to_dev(packages, policies, p, dev[0]));
        }
        assert forall|f: Seq<char>| #[trigger] is_left_to_dev(packages, policies, p, f) implies
            dev.len() > 0 by {
            lemma_left(packages, policies, p, f);
        }
        if x.package == packages[p].name@ && x.version == Some(packages[p].version@) {
            assert(x =~= y);
        }
    }
}

proof fn lemma_unknown_of(
    package: Package,
    features: Seq<Feature>,
    dev: Seq<Seq<char>>,
    x: FeatureErrorView,
)
    ensures
        dev_features::unknown_of(package, features, dev).contains(x) <==> x.package
            == package.name@ && x.version == package.version@ && x.implied_by is None
            && dev.contains(x.feature) && !dev_features::declares(features, x.feature),
    decreases dev.len(),
{
    if dev.len() > 0 {
        let t = dev.drop_last();
        let rest = dev_features::unknown_of(package, features, t);
        let y = FeatureErrorView {
            package: package.name@,
            version: package.version@,
            feature: dev.last(),
            implied_by: None,
        };
        lemma_unknown_of(package, features, t, x);
        lemma_push(rest, y, x);
        lemma_push(t, dev.last(), x.feature);
        assert(t.push(dev.last()) =~= dev);
        if x.package == package.name@ && x.version == package.version@ && x.implied_by is None
            && x.feature == dev.last() {
            assert(x =~= y);
        }
    }
}

proof fn lemma_implied_by(
    package: Package,
    features: Seq<Feature>,
    dev: Seq<Seq<char>>,
    name: Seq<char>,
    x: FeatureErrorView,
)
    ensures
        dev_features::implied_by(package, features, dev, name).contains(x) <==> x.package
            == package.name@ && x.version == package.version@ && x.feature == name && exists|k: int|
            0 <= k < features.len() && dev_features::implies_feature(
                #[trigger] features[k],
                dev,
                name,
            ) && x.implied_by == Some(features[k].name@),
    decreases features.len(),
{
    if features.len() > 0 {
        let t = features.drop_last();
        let n = features.len() - 1;
        let rest = dev_features::implied_by(package, t, dev, name);
        let y = FeatureErrorView {
            package: package.name@,
            version: package.version@,
            feature: name,
            implied_by: Some(features.last().name@),
        };
        lemma_implied_by(package, t, dev, name, x);
        lemma_push(rest, y, x);
        assert(features[n] == features.last());
        if rest.contains(x) {
            let k = choose|k: int|
                0 <= k < t.len() && dev_features::implies_feature(#[trigger] t[k], dev, name)
                    && x.implied_by == Some(t[k].name@);
            assert(features[k] == t[k]);
        }
        if x.package == package.name@ && x.version == package.version@ && x.feature == name
            && exists|k: int|
            0 <= k < features.len() && dev_features::implies_feature(
                #[trigger] features[k],
                dev,
                name,
            ) && x.implied_by == Some(features[k].name@) {
            let k = choose|k: int|
                0 <= k < features.len() && dev_features::implies_feature(
                    #[trigger] features[k],
                    dev,
                    name,
                ) && x.implied_by == Some(features[k].name@);
            if k < n {
                assert(t[k] == features[k]);
            } else {
                assert(x =~= y);
            }
        }
    }
}

proof fn lemma_implied_of(
    package: Package,
    features: Seq<Feature>,
    dev: Seq<Seq<char>>,
    n: nat,
    x: FeatureErrorView,
)
    requires
        n <= dev.len(),
    ensures
        dev_features::implied_of(package, features, dev, n).contains(x) <==> exists|j: int|
            0 <= j < n && dev_features::implied_by(
                package,
                features,
                dev,
                #[trigger] dev[j],
            ).contains(x),
    decreases n,
{
    if n > 0 {
        let rest = dev_features::implied_of(package, features, dev, (n - 1) as nat);
        lemma_implied_of(package, features, dev, (n - 1) as nat, x);
        lemma_concat(rest, dev_features::implied_by(package, features, dev, dev[n - 1]), x);
    }
}

proof fn lemma_unknown(
    packages: Seq<Package>,
    features: Seq<PackageFeatures>,
    policies: SortedMap<PackagePolicyEntry>,
    n: nat,
    x: FeatureErrorView,
)
    requires
        n <= packages.len(),
    ensures
        dev_features::unknown(packages, features, policies, n).contains(x) <==> exists|p: int|
            p < n && #[trigger] is_unknown(packages, features, policies, p, x.feature)
                && x.package == packages[p].name@ && x.version == packages[p].version@
                && x.implied_by is None,
    decreases n,
{
    if n > 0 {
        let p = n - 1;
        let rest = dev_features::unknown(packages, features, policies, (n - 1) as nat);
        let dev = dev_features::left_to_dev(packages[p], policies);
        let more = dev_features::unknown_of(packages[p], features[p].features@, dev);
        lemma_unknown(packages, features, policies, (n - 1) as nat, x);
        lemma_concat(rest, more, x);
        lemma_unknown_of(packages[p], features[p].features@, dev, x);
        lemma_left(packages, policies, p, x.feature);
        assert(is_unknown(packages, features, policies, p, x.feature) == (
        features[p].in_workspace && dev.contains(x.feature) && !dev_features::declares(
            features[p].features@,
            x.feature,
        )));
    }
}

proof fn lemma_implied(
    packages: Seq<Package>,
    features: Seq<PackageFeatures>,
    policies: SortedMap<PackagePolicyEntry>,
    n: nat,
    x: FeatureErrorView,
)
    requires
        n <= packages.len(),
    ensures
        dev_features::implied(packages, features, policies, n).contains(x) <==> x.implied_by is Some
            && exists|p: int|
            p < n && #[trigger] is_implied(
                packages,
                features,
                policies,
                p,
                x.feature,
                x.implied_by->0,
            ) && x.package == packages[p].name@ && x.version == packages[p].version@,
    decreases n,
{
    if n > 0 {
        let p = n - 1;
        let rest = dev_features::implied(packages, features, policies, (n - 1) as nat);
        let dev = dev_features::left_to_dev(packages[p], policies);
        let more = dev_features::implied_of(packages[p], features[p].features@, dev, dev.len());
        lemma_implied(packages, features, policies, (n - 1) as nat, x);
        lemma_concat(rest, more, x);
        lemma_implied_at(packages, features, policies, p, x);
    }
}

proof fn lemma_implied_at(
    packages: Seq<Package>,
    features: Seq<PackageFeatures>,
    policies: SortedMap<PackagePolicyEntry>,
    p: int,
    x: FeatureErrorView,
)
    requires
        0 <= p < packages.len(),
    ensures
        ({
            let dev = dev_features::left_to_dev(packages[p], policies);
            features[p].in_workspace && dev_features::implied_of(
                packages[p],
                features[p].features@,
                dev,
                dev.len(),
            ).contains(x) <==> x.implied_by is Some && is_implied(
                packages,
                features,
                policies,
                p,
                x.feature,
                x.implied_by->0,
            ) && x.package == packages[p].name@ && x.version == packages[p].version@
        }),
{
    let package = packages[p];
    let list = features[p].features@;
    let dev = dev_features::left_to_dev(package, policies);
    let all = dev_features::implied_of(package, list, dev, dev.len());
    lemma_implied_of(package, list, dev, dev.len(), x);
    lemma_left(packages, policies, p, x.feature);
    lemma_implied_by(package, list, dev, x.feature, x);
    if all.contains(x) {
        let j = choose|j: int|
            0 <= j < dev.len() && dev_features::implied_by(
                package,
                list,
                dev,
                #[trigger] dev[j],
            ).contains(x);
        lemma_implied_by(package, list, dev, dev[j], x);
        assert(dev[j] == x.feature);
        assert(dev.contains(x.feature));
        let k = choose|k: int|
            0 <= k < list.len() && dev_features::implies_feature(
                #[trigger] list[k],
                dev,
                x.feature,
            ) && x.implied_by == Some(list[k].name@);
        lemma_left(packages, policies, p, list[k].name@);
        let names = text::texts(list[k].enables@);
        let y = choose|y: int| 0 <= y < names.len() && names[y] == x.feature;
        assert(features[p].features@[k].enables@[y]@ == x.feature);
    }
    if x.implied_by is Some && is_implied(
        packages,
        features,
        policies,
        p,
        x.feature,
        x.implied_by->0,
    ) && x.package == package.name@ && x.version == package.version@ {
        let (k, y) = choose|k: int, y: int|
            0 <= k < features[p].features@.len() && features[p].features@[k].name@
                == x.implied_by->0 && 0 <= y < features[p].features@[k].enables@.len() && (
            #[trigger] features[p].features@[k].enables@[y])@ == x.feature;
        lemma_left(packages, policies, p, x.implied_by->0);
        let names = text::texts(list[k].enables@);
        assert(names[y] == x.feature);
        assert(dev_features::implies_feature(list[k], dev, x.feature));
        let j = choose|j: int| 0 <= j < dev.len() && dev[j] == x.feature;
        assert(dev_features::implied_by(package, list, dev, dev[j]).contains(x));
    }
}

/// Policies are refused exactly if something is wrong with them, and what is wrong is
/// listed: versions that need a policy of their own, policies that nothing needs, and
/// features that are left to development outside the workspace, that do not exist, or
/// that features not left to development enable.
pub proof fn law_wrong_policies_are_refused(
    packages: &Vec<Package>,
    features: &Vec<PackageFeatures>,
    config: ConfigFile,
    errors: CratePolicyErrors,
    x: PackageErrorView,
    y: FeatureErrorView,
)
    requires
        call_ensures(check_crate_policies, (packages, features, &config), Err(errors)),
    ensures
        sorted_map::views(errors.needs_policy_version@).contains(x) <==> exists|p: int| #[trigger]
            is_lacking(packages@, config.policy, p) && x.package == packages@[p].name@ && x.version
                == Some(packages@[p].version@),
        sorted_map::views(errors.unused_policy@).contains(x) <==> exists|k: int|
            0 <= k < config.policy.entries().len() && x.package == (
            #[trigger] config.policy.entries()[k]).0@ && (is_unused_name(
                packages@,
                config.policy,
                k,
            ) && x.version is None || exists|v: VetVersion| #[trigger]
                is_unused_version(packages@, config.policy, k, v) && x.version == Some(v@)),
        sorted_map::views(errors.dev_features.outside_workspace@).contains(x) <==> exists|
            p: int,
            f: Seq<char>,
        | #[trigger]
            is_left_to_dev(packages@, config.policy, p, f) && !features@[p].in_workspace
                && x.package == packages@[p].name@ && x.version == Some(packages@[p].version@),
        sorted_map::views(errors.dev_features.unknown@).contains(y) <==> exists|p: int| #[trigger]
            is_unknown(packages@, features@, config.policy, p, y.feature) && y.package
                == packages@[p].name@ && y.version == packages@[p].version@ && y.implied_by is None,
        sorted_map::views(errors.dev_features.implied@).contains(y) <==> y.implied_by is Some
            && exists|p: int| #[trigger]
            is_implied(packages@, features@, config.policy, p, y.feature, y.implied_by->0)
                && y.package == packages@[p].name@ && y.version == packages@[p].version@,
{
    let n = packages@.len();
    let s = config.policy.entries();
    lemma_lacking(packages@, config.policy, n, x);
    lemma_unused(packages@, s, x);
    assert forall|k: int| 0 <= k < s.len() implies (policy::unused_of(
        packages@,
        (#[trigger] s[k]).0@,
        s[k].1,
    ).contains(x) <==> x.package == s[k].0@ && (is_unused_name(packages@, config.policy, k)
        && x.version is None || exists|v: VetVersion| #[trigger]
        is_unused_version(packages@, config.policy, k, v) && x.version == Some(v@))) by {
        lemma_unused_of(packages@, config.policy, k, x);
    }
    lemma_outside(packages@, features@, config.policy, n, x);
    lemma_unknown(packages@, features@, config.policy, n, y);
    lemma_implied(packages@, features@, config.policy, n, y);
}

/// Policies with which something is wrong are not accepted.
pub proof fn law_wrong_policies_are_not_accepted(
    packages: &Vec<Package>,
    features: &Vec<PackageFeatures>,
    config: ConfigFile,
    r: Result<(), CratePolicyErrors>,
    p: int,
    k: int,
    v: VetVersion,
    feature: Seq<char>,
    by: Seq<char>,
)
    requires
        call_ensures(check_crate_policies, (packages, features, &config), r),
        is_lacking(packages@, config.policy, p) || is_unused_name(packages@, config.policy, k)
            || is_unused_version(packages@, config.policy, k, v) || (is_left_to_dev(
            packages@,
            config.policy,
            p,
            feature,
        ) && !features@[p].in_workspace) || is_unknown(
            packages@,
            features@,
            config.policy,
            p,
            feature,
        ) || is_implied(packages@, features@, config.policy, p, feature, by),
    ensures
        r is Err,
{
    let n = packages@.len();
    let s = config.policy.entries();
    let x = PackageErrorView { package: packages@[p].name@, version: Some(packages@[p].version@) };
    let u = PackageErrorView { package: s[k].0@, version: None };
    let w = PackageErrorView { package: s[k].0@, version: Some(v@) };
    let y = FeatureErrorView {
        package: packages@[p].name@,
        version: packages@[p].version@,
        feature,
        implied_by: None,
    };
    let z = FeatureErrorView { implied_by: Some(by), ..y };
    lemma_lacking(packages@, config.policy, n, x);
    lemma_unused(packages@, s, u);
    lemma_unused(packages@, s, w);
    if 0 <= k < s.len() {
        lemma_unused_of(packages@, config.policy, k, u);
        lemma_unused_of(packages@, config.policy, k, w);
    }
    lemma_outside(packages@, features@, config.policy, n, x);
    lemma_unknown(packages@, features@, config.policy, n, y);
    lemma_implied(packages@, features@, config.policy, n, z);
    if is_lacking(packages@, config.policy, p) {
        assert(policy::lacking(packages@, config.policy, n).contains(x));
    } else if is_unused_name(packages@, config.policy, k) {
        assert(policy::unused_of(packages@, s[k].0@, s[k].1).contains(u));
        assert(policy::unused(packages@, s).contains(u));
    } else if is_unused_version(packages@, config.policy, k, v) {
        assert(policy::unused_of(packages@, s[k].0@, s[k].1).contains(w));
        assert(policy::unused(packages@, s).contains(w));
    } else if is_unknown(packages@, features@, config.policy, p, feature) {
        assert(dev_features::unknown(packages@, features@, config.policy, n).contains(y));
    } else if is_implied(packages@, features@, config.policy, p, feature, by) {
        assert(is_implied(
            packages@,
            features@,
            config.policy,
            p,
            z.feature,
            z.implied_by->0,
        ));
        assert(dev_features::implied(packages@, features@, config.policy, n).contains(z));
    } else {
        assert(is_left_to_dev(packages@, config.policy, p, feature));
        assert(dev_features::outside(packages@, features@, config.policy, n).contains(x));
    }
}

} // verus!
