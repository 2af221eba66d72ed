//! The packages of a build and the links between them.

use vstd::prelude::*;
use crate::records::{PackagePolicyEntry, PolicyEntry};
use crate::sorted_map::SortedMap;
use crate::version::{version_eq, VetVersion, VetVersionView};

verus! {

/// The machine that a package is built for.
#[derive(Debug, Copy, Clone, Eq, PartialEq, Structural)]
pub enum BuildPlatform {
    /// The machine that the result runs on.
    Target,
    /// The machine that builds, which runs build scripts and procedural macros.
    Host,
}

/// The kind of a dependency.
#[derive(Debug, Copy, Clone, Eq, PartialEq, Structural)]
pub enum DependencyKind {
    Normal,
    Development,
    Build,
}

/// Whether a dependency is enabled, as far as that is known.
#[derive(Debug, Copy, Clone, Eq, PartialEq, Structural)]
pub enum EnabledTernary {
    Disabled,
    Unknown,
    Enabled,
}

/// When a dependency of one kind is enabled.
#[derive(Debug, Copy, Clone, Eq, PartialEq, Structural)]
pub struct LinkStatus {
    /// Without regard to features.
    pub required: EnabledTernary,
    /// If a feature enables the dependency.
    pub enabled: EnabledTernary,
}

/// A dependency of a package on another.
#[derive(Debug)]
pub struct Link {
    /// The position of the other package.
    pub to: usize,
    /// The name by which the package refers to the other one.
    pub dep_name: String,
    pub normal: LinkStatus,
    pub development: LinkStatus,
    pub build: LinkStatus,
}

/// A package of the build.
#[derive(Debug)]
pub struct Package {
    /// What tells the package from all others.
    pub id: String,
    pub name: String,
    pub version: VetVersion,
    /// Whether the package comes from the registry.
    pub crates_io: bool,
    pub proc_macro: bool,
    pub build_script: bool,
    pub links: Vec<Link>,
}

impl Link {
    /// The status of the dependency for one kind.
    pub open spec fn status(&self, kind: DependencyKind) -> LinkStatus {
        match kind {
            DependencyKind::Normal => self.normal,
            DependencyKind::Development => self.development,
            DependencyKind::Build => self.build,
        }
    }

    /// The status of the dependency for one kind.
    pub fn req_for_kind(&self, kind: DependencyKind) -> (r: LinkStatus)
        ensures
            r == self.status(kind),
    {
        match kind {
            DependencyKind::Normal => self.normal,
            DependencyKind::Development => self.development,
            DependencyKind::Build => self.build,
        }
    }
}

/// The first entry for a version.
pub open spec fn versioned_policy(
    s: Seq<(VetVersion, PolicyEntry)>,
    version: VetVersionView,
) -> Option<PolicyEntry>
    decreases s.len(),
{
    if s.len() == 0 {
        None
    } else if s[0].0@ == version {
        Some(s[0].1)
    } else {
        versioned_policy(s.drop_first(), version)
    }
}

/// The policy for a version of a package.
pub open spec fn policy_for(
    policy: SortedMap<PackagePolicyEntry>,
    name: Seq<char>,
    version: VetVersionView,
) -> Option<PolicyEntry> {
    match policy.get_spec(name) {
        Some(PackagePolicyEntry::Unversioned(entry)) => Some(entry),
        Some(PackagePolicyEntry::Versioned { version: list }) => versioned_policy(list@, version),
        None => None,
    }
}

/// The first entry for a version.
fn find_policy<'a>(list: &'a Vec<(VetVersion, PolicyEntry)>, version: &VetVersion) -> (r: Option<
    &'a PolicyEntry,
>)
    ensures
        match r {
            Some(entry) => versioned_policy(list@, version@) == Some(*entry),
            None => versioned_policy(list@, version@) is None,
        },
{
    let mut i: usize = 0;
    assert(list@.skip(0) =~= list@);
    while i < list.len()
        invariant
            i <= list@.len(),
            versioned_policy(list@, version@) == versioned_policy(list@.skip(i as int), version@),
        decreases list@.len() - i,
    {
        if version_eq(&list[i].0, version) {
            return Some(&list[i].1);
        }
        assert(list@.skip(i as int).drop_first() =~= list@.skip(i + 1));
        i = i + 1;
    }
    None
}

impl Package {
    /// The policy for the package.
    pub open spec fn policy(&self, policy: SortedMap<PackagePolicyEntry>) -> Option<PolicyEntry> {
        policy_for(policy, self.name@, self.version@)
    }

    /// Whether the package needs audits: it comes from the registry, or a
    /// policy treats it as if it did.
    pub open spec fn third_party(&self, policy: SortedMap<PackagePolicyEntry>) -> bool {
        self.crates_io || (match self.policy(policy) {
            Some(entry) => entry.audit_as_crates_io == Some(true),
            None => false,
        })
    }

    /// The policy for the package.
    pub fn policy_entry<'a>(&self, policy: &'a SortedMap<PackagePolicyEntry>) -> (r: Option<
        &'a PolicyEntry,
    >)
        ensures
            match r {
                Some(entry) => self.policy(*policy) == Some(*entry),
                None => self.policy(*policy) is None,
            },
    {
        match policy.get(self.name.as_str()) {
            Some(PackagePolicyEntry::Unversioned(entry)) => Some(entry),
            Some(PackagePolicyEntry::Versioned { version: list }) => find_policy(list, &self.version),
            None => None,
        }
    }

    /// Whether the package needs audits.
    pub fn is_third_party(&self, policy: &SortedMap<PackagePolicyEntry>) -> (r: bool)
        ensures
            r == self.third_party(*policy),
    {
        if self.crates_io {
            return true;
        }
        match self.policy_entry(policy) {
            Some(entry) => match entry.audit_as_crates_io {
                Some(b) => b,
                None => false,
            },
            None => false,
        }
    }
}

/// Which optional dependencies the features of a build enable.
#[derive(Debug)]
pub struct BuildFeatures {
    /// For each package and each of its links, for the target.
    pub target: Vec<Vec<bool>>,
    /// For each package and each of its links, for the host.
    pub host: Vec<Vec<bool>>,
}

impl BuildFeatures {
    /// Whether the link `k` of the package `p` is enabled by a feature.
    pub open spec fn has(&self, platform: BuildPlatform, p: int, k: int) -> bool {
        match platform {
            BuildPlatform::Target => self.target@[p]@[k],
            BuildPlatform::Host => self.host@[p]@[k],
        }
    }

    /// There is a flag for each link of each package.
    pub open spec fn fits(&self, packages: Seq<Package>) -> bool {
        &&& self.target@.len() == packages.len()
        &&& self.host@.len() == packages.len()
        &&& forall|p: int|
            #![trigger packages[p]]
            0 <= p < packages.len() ==> self.target@[p]@.len() == packages[p].links@.len()
                && self.host@[p]@.len() == packages[p].links@.len()
    }

    /// Whether a link of a package is enabled by a feature.
    pub fn contains(&self, platform: BuildPlatform, p: usize, k: usize) -> (r: bool)
        requires
            p < self.target@.len(),
            p < self.host@.len(),
            k < self.target@[p as int]@.len(),
            k < self.host@[p as int]@.len(),
        ensures
            r == self.has(platform, p as int, k as int),
    {
        match platform {
            BuildPlatform::Target => self.target[p][k],
            BuildPlatform::Host => self.host[p][k],
        }
    }
}

/// Every link goes to one of the packages.
pub open spec fn links_ok(packages: Seq<Package>) -> bool {
    forall|p: int, k: int|
        0 <= p < packages.len() && 0 <= k < packages[p].links@.len() ==> (
        #[trigger] packages[p].links@[k]).to < packages.len()
}

} // verus!
