//! Whether features can be left to development.

use vstd::prelude::*;
use crate::packages::Package;
use crate::policy::{PackageError, PackageErrorView};
use crate::records::PackagePolicyEntry;
use crate::sorted_map;
use crate::sorted_map::SortedMap;
use crate::text;
use crate::text::{text_eq, texts_contain};
use crate::version::{VetVersion, VetVersionView};

verus! {

/// A feature of a package.
#[derive(Debug, PartialEq, Eq)]
pub struct Feature {
    pub name: String,
    /// The features of the same package that it enables directly.
    pub enables: Vec<String>,
}

/// The features of a package. An optional dependency that no feature names is a
/// feature too.
#[derive(Debug, PartialEq, Eq)]
pub struct PackageFeatures {
    /// Whether the package is in the workspace.
    pub in_workspace: bool,
    pub features: Vec<Feature>,
}

/// A feature that cannot be left to development.
#[derive(Debug, PartialEq, Eq)]
pub struct FeatureError {
    pub package: String,
    pub version: VetVersion,
    pub feature: String,
    /// The feature that enables it; none if the package has no such feature.
    pub implied_by: Option<String>,
}

/// The contents of a [`FeatureError`].
#[verifier::ext_equal]
pub struct FeatureErrorView {
    pub package: Seq<char>,
    pub version: VetVersionView,
    pub feature: Seq<char>,
    pub implied_by: Option<Seq<char>>,
}

impl View for FeatureError {
    type V = FeatureErrorView;

    open spec fn view(&self) -> FeatureErrorView {
        FeatureErrorView {
            package: self.package@,
            version: self.version@,
            feature: self.feature@,
            implied_by: text::opt_text(self.implied_by),
        }
    }
}

/// The features of a package that its policy leaves to development.
pub open spec fn left_to_dev(package: Package, policy: SortedMap<PackagePolicyEntry>) -> Seq<Seq<char>> {
    match package.policy(policy) {
        Some(entry) => text::texts(entry.dev_features@),
        None => Seq::empty(),
    }
}

/// Whether a package has a feature.
pub open spec fn declares(features: Seq<Feature>, name: Seq<char>) -> bool {
    exists|k: int| 0 <= k < features.len() && (#[trigger] features[k]).name@ == name
}

/// The features of a list that a package does not have.
pub open spec fn unknown_of(package: Package, features: Seq<Feature>, dev: Seq<Seq<char>>) -> Seq<
    FeatureErrorView,
>
    decreases dev.len(),
{
    if dev.len() == 0 {
        Seq::empty()
    } else {
        let rest = unknown_of(package, features, dev.drop_last());
        if declares(features, dev.last()) {
            rest
        } else {
            rest.push(
                FeatureErrorView {
                    package: package.name@,
                    version: package.version@,
                    feature: dev.last(),
                    implied_by: None,
                },
            )
        }
    }
}

/// Whether a feature that is not left to development enables another.
pub open spec fn implies_feature(f: Feature, dev: Seq<Seq<char>>, name: Seq<char>) -> bool {
    !dev.contains(f.name@) && text::texts(f.enables@).contains(name)
}

/// The features that are not left to development and enable a feature.
pub open spec fn implied_by(
    package: Package,
    features: Seq<Feature>,
    dev: Seq<Seq<char>>,
    name: Seq<char>,
) -> Seq<FeatureErrorView>
    decreases features.len(),
{
    if features.len() == 0 {
        Seq::empty()
    } else {
        let rest = implied_by(package, features.drop_last(), dev, name);
        if implies_feature(features.last(), dev, name) {
            rest.push(
                FeatureErrorView {
                    package: package.name@,
                    version: package.version@,
                    feature: name,
                    implied_by: Some(features.last().name@),
                },
            )
        } else {
            rest
        }
    }
}

/// The features left to development that others enable, of the first `n`.
pub open spec fn implied_of(
    package: Package,
    features: Seq<Feature>,
    dev: Seq<Seq<char>>,
    n: nat,
) -> Seq<FeatureErrorView>
    decreases n,
{
    if n == 0 {
        Seq::empty()
    } else {
        implied_of(package, features, dev, (n - 1) as nat) + implied_by(
            package,
            features,
            dev,
            dev[n - 1],
        )
    }
}

/// The packages outside of the workspace whose features are left to development,
/// of the first `n`.
pub open spec fn outside(
    packages: Seq<Package>,
    features: Seq<PackageFeatures>,
    policy: SortedMap<PackagePolicyEntry>,
    n: nat,
) -> Seq<PackageErrorView>
    decreases n,
{
    if n == 0 {
        Seq::empty()
    } else {
        let rest = outside(packages, features, policy, (n - 1) as nat);
        let package = packages[n - 1];
        if left_to_dev(package, policy).len() > 0 && !features[n - 1].in_workspace {
            rest.push(
                PackageErrorView { package: package.name@, version: Some(package.version@) },
            )
        } else {
            rest
        }
    }
}

/// The features left to development that packages of the workspace do not have,
/// of the first `n` packages.
pub open spec fn unknown(
    packages: Seq<Package>,
    features: Seq<PackageFeatures>,
    policy: SortedMap<PackagePolicyEntry>,
    n: nat,
) -> Seq<FeatureErrorView>
    decreases n,
{
    if n == 0 {
        Seq::empty()
    } else {
        let rest = unknown(packages, features, policy, (n - 1) as nat);
        if features[n - 1].in_workspace {
            rest + unknown_of(
                packages[n - 1],
                features[n - 1].features@,
                left_to_dev(packages[n - 1], policy),
            )
        } else {
            rest
        }
    }
}

/// The features left to development that others of packages of the workspace
/// enable, of the first `n` packages.
pub open spec fn implied(
    packages: Seq<Package>,
    features: Seq<PackageFeatures>,
    policy: SortedMap<PackagePolicyEntry>,
    n: nat,
) -> Seq<FeatureErrorView>
    decreases n,
{
    if n == 0 {
        Seq::empty()
    } else {
        let rest = implied(packages, features, policy, (n - 1) as nat);
        let dev = left_to_dev(packages[n - 1], policy);
        if features[n - 1].in_workspace {
            rest + implied_of(packages[n - 1], features[n - 1].features@, dev, dev.len())
        } else {
            rest
        }
    }
}

fn has_feature(features: &Vec<Feature>, name: &str) -> (r: bool)
    ensures
        r == declares(features@, name@),
{
    let mut k: usize = 0;
    while k < features.len()
        invariant
            k <= features@.len(),
            forall|x: int| 0 <= x < k ==> (#[trigger] features@[x]).name@ != name@,
        decreases features@.len() - k,
    {
        if text_eq(features[k].name.as_str(), name) {
            return true;
        }
        k = k + 1;
    }
    false
}

fn push_unknown(
    out: &mut Vec<FeatureError>,
    package: &Package,
    features: &Vec<Feature>,
    dev: &Vec<String>,
)
    ensures
        sorted_map::views(final(out)@) == sorted_map::views(old(out)@) + unknown_of(
            *package,
            features@,
            text::texts(dev@),
        ),
{
    let ghost start = sorted_map::views(out@);
    let ghost d = text::texts(dev@);
    let mut j: usize = 0;
    assert(sorted_map::views(out@) =~= start + unknown_of(*package, features@, d.take(0)));
    while j < dev.len()
        invariant
            d == text::texts(dev@),
            j <= dev@.len(),
            sorted_map::views(out@) == start + unknown_of(*package, features@, d.take(j as int)),
        decreases dev@.len() - j,
    {
        let ghost before = sorted_map::views(out@);
        proof {
            assert(d.take(j + 1).drop_last() =~= d.take(j as int));
            assert(d.take(j + 1).last() == dev@[j as int]@);
        }
        if !has_feature(features, dev[j].as_str()) {
            let e = FeatureError {
                package: package.name.clone(),
                version: package.version.clone(),
                feature: dev[j].clone(),
                implied_by: None,
            };
            out.push(e);
            assert(sorted_map::views(out@) =~= before.push(e@));
        }
        assert(sorted_map::views(out@) =~= start + unknown_of(*package, features@, d.take(j + 1)));
        j = j + 1;
    }
    assert(d.take(j as int) =~= d);
}

fn push_implied_by(
    out: &mut Vec<FeatureError>,
    package: &Package,
    features: &Vec<Feature>,
    dev: &Vec<String>,
    name: &String,
)
    ensures
        sorted_map::views(final(out)@) == sorted_map::views(old(out)@) + implied_by(
            *package,
            features@,
            text::texts(dev@),
            name@,
        ),
{
    let ghost start = sorted_map::views(out@);
    let ghost d = text::texts(dev@);
    let ghost f = features@;
    let mut k: usize = 0;
    assert(sorted_map::views(out@) =~= start + implied_by(*package, f.take(0), d, name@));
    while k < features.len()
        invariant
            d == text::texts(dev@),
            f == features@,
            k <= features@.len(),
            sorted_map::views(out@) == start + implied_by(*package, f.take(k as int), d, name@),
        decreases features@.len() - k,
    {
        let ghost before = sorted_map::views(out@);
        proof {
            assert(f.take(k + 1).drop_last() =~= f.take(k as int));
            assert(f.take(k + 1).last() == f[k as int]);
        }
        let feature = &features[k];
        if !texts_contain(dev, feature.name.as_str()) && texts_contain(
            &feature.enables,
            name.as_str(),
        ) {
            let e = FeatureError {
                package: package.name.clone(),
                version: package.version.clone(),
                feature: name.clone(),
                implied_by: Some(feature.name.clone()),
            };
            out.push(e);
            assert(sorted_map::views(out@) =~= before.push(e@));
        }
        assert(sorted_map::views(out@) =~= start + implied_by(*package, f.take(k + 1), d, name@));
        k = k + 1;
    }
    assert(f.take(k as int) =~= f);
}

fn push_implied(
    out: &mut Vec<FeatureError>,
    package: &Package,
    features: &Vec<Feature>,
    dev: &Vec<String>,
)
    ensures
        sorted_map::views(final(out)@) == sorted_map::views(old(out)@) + implied_of(
            *package,
            features@,
            text::texts(dev@),
            dev@.len(),
        ),
{
    let ghost start = sorted_map::views(out@);
    let ghost d = text::texts(dev@);
    let mut j: usize = 0;
    assert(sorted_map::views(out@) =~= start + implied_of(*package, features@, d, 0));
    while j < dev.len()
        invariant
            d == text::texts(dev@),
            j <= dev@.len(),
            sorted_map::views(out@) == start + implied_of(*package, features@, d, j as nat),
        decreases dev@.len() - j,
    {
        let ghost before = sorted_map::views(out@);
        assert(d[j as int] == dev@[j as int]@);
        push_implied_by(out, package, features, dev, &dev[j]);
        assert(sorted_map::views(out@) =~= start + implied_of(
            *package,
            features@,
            d,
            (j + 1) as nat,
        ));
        j = j + 1;
    }
}

/// What is wrong with features that are left to development.
#[derive(Debug, PartialEq, Eq)]
pub struct DevFeatureErrors {
    /// Packages outside of the workspace, whose features cannot be chosen.
    pub outside_workspace: Vec<PackageError>,
    /// Features that packages do not have.
    pub unknown: Vec<FeatureError>,
    /// Features that others enable.
    pub implied: Vec<FeatureError>,
}

/// Checks the features that policies leave to development. Only packages of the
/// workspace can leave features to development, only those that they have, and
/// only those that no other feature enables.
pub fn check_dev_features(
    packages: &Vec<Package>,
    features: &Vec<PackageFeatures>,
    policy: &SortedMap<PackagePolicyEntry>,
) -> (r: DevFeatureErrors)
    requires
        features@.len() == packages@.len(),
    ensures
        sorted_map::views(r.outside_workspace@) == outside(
            packages@,
            features@,
            *policy,
            packages@.len(),
        ),
        sorted_map::views(r.unknown@) == unknown(
            packages@,
            features@,
            *policy,
            packages@.len(),
        ),
        sorted_map::views(r.implied@) == implied(
            packages@,
            features@,
            *policy,
            packages@.len(),
        ),
{
    let mut outside_workspace: Vec<PackageError> = Vec::new();
    let mut unknown_features: Vec<FeatureError> = Vec::new();
    let mut implied_features: Vec<FeatureError> = Vec::new();
    let mut p: usize = 0;
    assert(sorted_map::views(outside_workspace@) =~= Seq::<PackageErrorView>::empty());
    assert(sorted_map::views(unknown_features@) =~= Seq::<FeatureErrorView>::empty());
    assert(sorted_map::views(implied_features@) =~= Seq::<FeatureErrorView>::empty());
    while p < packages.len()
        invariant
            features@.len() == packages@.len(),
            p <= packages@.len(),
            sorted_map::views(outside_workspace@) == outside(
                packages@,
                features@,
                *policy,
                p as nat,
            ),
            sorted_map::views(unknown_features@) == unknown(
                packages@,
                features@,
                *policy,
                p as nat,
            ),
            sorted_map::views(implied_features@) == implied(
                packages@,
                features@,
                *policy,
                p as nat,
            ),
        decreases packages@.len() - p,
    {
        let package = &packages[p];
        let own = &features[p];
        let ghost before = sorted_map::views(outside_workspace@);
        match package.policy_entry(policy) {
            Some(entry) => {
                if own.in_workspace {
                    push_unknown(
                        &mut unknown_features,
                        package,
                        &own.features,
                        &entry.dev_features,
                    );
                    push_implied(
                        &mut implied_features,
                        package,
                        &own.features,
                        &entry.dev_features,
                    );
                } else if entry.dev_features.len() > 0 {
                    let e = PackageError {
                        package: package.name.clone(),
                        version: Some(package.version.clone()),
                    };
                    outside_workspace.push(e);
                    assert(sorted_map::views(outside_workspace@) =~= before.push(e@));
                }
            },
            None => {
                proof {
                    let none = Seq::<Seq<char>>::empty();
                    let rest = unknown(packages@, features@, *policy, p as nat);
                    assert(rest + unknown_of(*package, own.features@, none) =~= rest);
                    let rest = implied(packages@, features@, *policy, p as nat);
                    assert(rest + implied_of(*package, own.features@, none, 0) =~= rest);
                }
            },
        }
        p = p + 1;
    }
    DevFeatureErrors { outside_workspace, unknown: unknown_features, implied: implied_features }
}

} // verus!
