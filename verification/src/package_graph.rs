//! The package graph that Cargo's metadata describes.

use vstd::prelude::*;
use guppy::graph::cargo::{CargoOptions, CargoResolverVersion, CargoSet};
use guppy::graph::feature::{FeatureId, FeatureLabel, StandardFeatures};
use guppy::graph::{DependencyDirection, ExternalSource, PackageGraph};
use guppy::platform::PlatformSpec;
use guppy::PackageId;
use crate::dev_features::{Feature, PackageFeatures};
use crate::packages;
use crate::packages::{
    BuildFeatures, BuildPlatform, DependencyKind, EnabledTernary, Link, LinkStatus, Package,
};
use crate::text;
use crate::text::{text_eq, texts_contain};
use crate::version::{Version, VetVersion, VetVersionView};

verus! {

/// The package graph of Cargo's metadata.
#[verifier::external_type_specification]
#[verifier::external_body]
pub struct ExPackageGraph(guppy::graph::PackageGraph);

/// The outcome of a simulated build.
#[verifier::external_type_specification]
#[verifier::external_body]
pub struct ExCargoSet<'g>(guppy::graph::cargo::CargoSet<'g>);

/// The version of the algorithm by which Cargo resolves features.
#[verifier::external_type_specification]
#[verifier::external_body]
pub struct ExCargoResolverVersion(guppy::graph::cargo::CargoResolverVersion);

/// What the graph says of a package.
pub struct PackageInfo {
    pub name: Seq<char>,
    pub version: VetVersionView,
    pub crates_io: bool,
    pub proc_macro: bool,
    pub build_script: bool,
}

/// What the graph says of a dependency between two packages.
pub struct LinkInfo {
    pub dep_name: Seq<char>,
    pub normal: LinkStatus,
    pub development: LinkStatus,
    pub build: LinkStatus,
}

/// The packages of a graph, by id.
pub uninterp spec fn graph_packages(graph: PackageGraph) -> Map<Seq<char>, PackageInfo>;

/// The dependencies of a graph, by the ids of the two packages.
pub uninterp spec fn graph_links(graph: PackageGraph) -> Map<(Seq<char>, Seq<char>), LinkInfo>;

/// The ids of the packages of the workspace.
pub uninterp spec fn workspace_members(graph: PackageGraph) -> Set<Seq<char>>;

/// The ids of the packages of the workspace that no other package of it
/// depends on. Where the packages of a cycle depend on each other and no other
/// package of the workspace depends on them, all of them are roots.
pub uninterp spec fn workspace_roots(graph: PackageGraph) -> Set<Seq<char>>;

/// The optional dependencies that a simulated build enables, each by platform,
/// id of the package and name of the dependency.
pub uninterp spec fn enabled_dependencies(build: CargoSet) -> Set<
    (BuildPlatform, Seq<char>, Seq<char>),
>;

/// The optional dependencies that the build of the packages `initials` with all
/// their features enables.
pub uninterp spec fn resolved_dependencies(
    graph: PackageGraph,
    initials: Set<Seq<char>>,
    include_dev: bool,
    resolver: CargoResolverVersion,
) -> Set<(BuildPlatform, Seq<char>, Seq<char>)>;

/// The features of the packages of a graph, by id and name, each with what it
/// enables directly in the same package.
pub uninterp spec fn graph_features(graph: PackageGraph) -> Map<
    (Seq<char>, Seq<char>),
    Set<Seq<char>>,
>;

/// Whether a list of ids holds those of a set, each once.
pub open spec fn lists(ids: Seq<String>, set: Set<Seq<char>>) -> bool {
    &&& forall|i: int| 0 <= i < ids.len() ==> set.contains((#[trigger] ids[i])@)
    &&& forall|id: Seq<char>| #[trigger] set.contains(id) ==> exists|i: int|
        0 <= i < ids.len() && (#[trigger] ids[i])@ == id
    &&& forall|i: int, j: int|
        0 <= i < j < ids.len() ==> (#[trigger] ids[i])@ != (#[trigger] ids[j])@
}

/// `PackageGraph::package_ids`: each package of the graph, in no particular
/// order.
#[verifier::external_body]
fn package_ids(graph: &PackageGraph) -> (r: Vec<String>)
    ensures
        lists(r@, graph_packages(*graph).dom()),
{
    graph.package_ids().map(|id| id.repr().to_owned()).collect()
}

/// `PackageMetadata::name`: the name of a package of the graph.
#[verifier::external_body]
fn package_name(graph: &PackageGraph, id: &str) -> (r: String)
    requires
        graph_packages(*graph).dom().contains(id@),
    ensures
        r@ == graph_packages(*graph)[id@].name,
{
    graph.metadata(&PackageId::new(id)).unwrap().name().to_owned()
}

/// `PackageMetadata::version`: the version of a package of the graph, with the
/// identifiers of its pre-release and build parts taken apart.
#[verifier::external_body]
fn package_semver(graph: &PackageGraph, id: &str) -> (r: Version)
    requires
        graph_packages(*graph).dom().contains(id@),
    ensures
        r@ == graph_packages(*graph)[id@].version.semver,
{
    let metadata = graph.metadata(&PackageId::new(id)).unwrap();
    let v = metadata.version();
    Version {
        major: v.major,
        minor: v.minor,
        patch: v.patch,
        pre: v.pre.split_terminator('.').map(|s| s.to_owned()).collect(),
        build: v.build.split_terminator('.').map(|s| s.to_owned()).collect(),
    }
}

/// `PackageSource::parse_external`: the commit of a package that comes from a
/// Git repository, none for other packages.
#[verifier::external_body]
fn package_git_rev(graph: &PackageGraph, id: &str) -> (r: Option<String>)
    requires
        graph_packages(*graph).dom().contains(id@),
    ensures
        text::opt_text(r) == graph_packages(*graph)[id@].version.git_rev,
{
    match graph.metadata(&PackageId::new(id)).unwrap().source().parse_external() {
        Some(ExternalSource::Git { resolved, .. }) => Some(resolved.to_owned()),
        _ => None,
    }
}

/// `PackageSource::is_crates_io`: whether a package comes from the registry.
#[verifier::external_body]
fn package_is_crates_io(graph: &PackageGraph, id: &str) -> (r: bool)
    requires
        graph_packages(*graph).dom().contains(id@),
    ensures
        r == graph_packages(*graph)[id@].crates_io,
{
    graph.metadata(&PackageId::new(id)).unwrap().source().is_crates_io()
}

/// `PackageMetadata::is_proc_macro`: whether a package is a procedural macro.
#[verifier::external_body]
fn package_is_proc_macro(graph: &PackageGraph, id: &str) -> (r: bool)
    requires
        graph_packages(*graph).dom().contains(id@),
    ensures
        r == graph_packages(*graph)[id@].proc_macro,
{
    graph.metadata(&PackageId::new(id)).unwrap().is_proc_macro()
}

/// `PackageMetadata::has_build_script`: whether a package has a build script.
#[verifier::external_body]
fn package_has_build_script(graph: &PackageGraph, id: &str) -> (r: bool)
    requires
        graph_packages(*graph).dom().contains(id@),
    ensures
        r == graph_packages(*graph)[id@].build_script,
{
    graph.metadata(&PackageId::new(id)).unwrap().has_build_script()
}

/// The ids that a package has a dependency on.
pub open spec fn linked_ids(graph: PackageGraph, id: Seq<char>) -> Set<Seq<char>> {
    Set::new(|to: Seq<char>| graph_links(graph).dom().contains((id, to)))
}

/// `PackageMetadata::direct_links`: the packages of the graph that a package
/// depends on, each once.
#[verifier::external_body]
fn direct_links(graph: &PackageGraph, id: &str) -> (r: Vec<String>)
    requires
        graph_packages(*graph).dom().contains(id@),
    ensures
        lists(r@, linked_ids(*graph, id@)),
        forall|k: int|
            0 <= k < r@.len() ==> graph_packages(*graph).dom().contains((#[trigger] r@[k])@),
{
    let metadata = graph.metadata(&PackageId::new(id)).unwrap();
    metadata.direct_links().map(|link| link.to().id().repr().to_owned()).collect()
}

/// `PackageLink::dep_name`: the name by which a package refers to a dependency.
#[verifier::external_body]
fn link_dep_name(graph: &PackageGraph, from: &str, to: &str) -> (r: String)
    requires
        graph_packages(*graph).dom().contains(from@),
        graph_links(*graph).dom().contains((from@, to@)),
    ensures
        r@ == graph_links(*graph)[(from@, to@)].dep_name,
{
    let metadata = graph.metadata(&PackageId::new(from)).unwrap();
    metadata.link_to(&PackageId::new(to)).unwrap().unwrap().dep_name().to_owned()
}

impl LinkInfo {
    /// The status of the dependency for one kind.
    pub open spec fn status(self, kind: DependencyKind) -> LinkStatus {
        match kind {
            DependencyKind::Normal => self.normal,
            DependencyKind::Development => self.development,
            DependencyKind::Build => self.build,
        }
    }
}

/// `EnabledStatus::required_on` for any platform: whether a dependency of one
/// kind is followed without regard to features.
#[verifier::external_body]
fn link_required(graph: &PackageGraph, from: &str, to: &str, kind: DependencyKind) -> (r:
    EnabledTernary)
    requires
        graph_packages(*graph).dom().contains(from@),
        graph_links(*graph).dom().contains((from@, to@)),
    ensures
        r == graph_links(*graph)[(from@, to@)].status(kind).required,
{
    let metadata = graph.metadata(&PackageId::new(from)).unwrap();
    let link = metadata.link_to(&PackageId::new(to)).unwrap().unwrap();
    let status = match kind {
        DependencyKind::Normal => link.normal().status(),
        DependencyKind::Development => link.dev().status(),
        DependencyKind::Build => link.build().status(),
    };
    match status.required_on(&PlatformSpec::Any) {
        guppy::platform::EnabledTernary::Disabled => EnabledTernary::Disabled,
        guppy::platform::EnabledTernary::Unknown => EnabledTernary::Unknown,
        guppy::platform::EnabledTernary::Enabled => EnabledTernary::Enabled,
    }
}

/// `EnabledStatus::enabled_on` for any platform: whether a dependency of one
/// kind is followed if a feature enables it.
#[verifier::external_body]
fn link_enabled(graph: &PackageGraph, from: &str, to: &str, kind: DependencyKind) -> (r:
    EnabledTernary)
    requires
        graph_packages(*graph).dom().contains(from@),
        graph_links(*graph).dom().contains((from@, to@)),
    ensures
        r == graph_links(*graph)[(from@, to@)].status(kind).enabled,
{
    let metadata = graph.metadata(&PackageId::new(from)).unwrap();
    let link = metadata.link_to(&PackageId::new(to)).unwrap().unwrap();
    let status = match kind {
        DependencyKind::Normal => link.normal().status(),
        DependencyKind::Development => link.dev().status(),
        DependencyKind::Build => link.build().status(),
    };
    match status.enabled_on(&PlatformSpec::Any) {
        guppy::platform::EnabledTernary::Disabled => EnabledTernary::Disabled,
        guppy::platform::EnabledTernary::Unknown => EnabledTernary::Unknown,
        guppy::platform::EnabledTernary::Enabled => EnabledTernary::Enabled,
    }
}

/// `PackageGraph::resolve_workspace` and `PackageSet::package_ids`: the packages
/// of the workspace, which are packages of the graph.
#[verifier::external_body]
pub(crate) fn workspace_ids(graph: &PackageGraph) -> (r: Vec<String>)
    ensures
        lists(r@, workspace_members(*graph)),
        forall|k: int|
            0 <= k < r@.len() ==> graph_packages(*graph).dom().contains((#[trigger] r@[k])@),
{
    let workspace = graph.resolve_workspace();
    let ids = workspace.package_ids(DependencyDirection::Forward);
    ids.map(|id| id.repr().to_owned()).collect()
}

/// `PackageSet::root_ids` of the workspace: the packages of the workspace that
/// no other package of it depends on, except within a cycle. They are packages of
/// the graph.
#[verifier::external_body]
pub(crate) fn workspace_root_ids(graph: &PackageGraph) -> (r: Vec<String>)
    ensures
        lists(r@, workspace_roots(*graph)),
        forall|k: int|
            0 <= k < r@.len() ==> graph_packages(*graph).dom().contains((#[trigger] r@[k])@),
{
    let workspace = graph.resolve_workspace();
    let ids = workspace.root_ids(DependencyDirection::Forward);
    ids.map(|id| id.repr().to_owned()).collect()
}

/// The texts of a list, as a set.
pub open spec fn id_set(ids: Seq<String>) -> Set<Seq<char>> {
    Set::new(|id: Seq<char>| exists|i: int| 0 <= i < ids.len() && (#[trigger] ids[i])@ == id)
}

/// `FeatureSet::into_cargo_set`: simulates the build of packages with all their
/// features, for any platform. What it enables depends on the graph, on which
/// packages these are, on whether development dependencies are built and on the
/// resolver.
#[verifier::external_body]
fn simulate_build<'g>(
    graph: &'g PackageGraph,
    initials: &Vec<String>,
    include_dev: bool,
    resolver: CargoResolverVersion,
) -> (r: CargoSet<'g>)
    requires
        forall|k: int|
            0 <= k < initials@.len() ==> graph_packages(*graph).dom().contains(
                (#[trigger] initials@[k])@,
            ),
    ensures
        enabled_dependencies(r) == resolved_dependencies(
            *graph,
            id_set(initials@),
            include_dev,
            resolver,
        ),
{
    let ids: Vec<PackageId> = initials.iter().map(|id| PackageId::new(id.as_str())).collect();
    let features = graph.resolve_ids(&ids).unwrap().to_feature_set(StandardFeatures::All);
    let mut options = CargoOptions::new();
    options.set_platform(PlatformSpec::Any);
    options.set_include_dev(include_dev);
    options.set_resolver(resolver);
    features.into_cargo_set(&options).unwrap()
}

/// `FeatureSet::contains` on the features of a platform: whether a simulated
/// build enables an optional dependency of a package.
#[verifier::external_body]
fn enables_dependency(build: &CargoSet, platform: BuildPlatform, id: &str, dep_name: &str) -> (r:
    bool)
    ensures
        r == enabled_dependencies(*build).contains((platform, id@, dep_name@)),
{
    let features = match platform {
        BuildPlatform::Target => build.target_features(),
        BuildPlatform::Host => build.host_features(),
    };
    let id = PackageId::new(id);
    features.contains((&id, FeatureLabel::OptionalDependency(dep_name))).unwrap_or(false)
}

/// The names of the features of a package.
pub open spec fn feature_names(graph: PackageGraph, id: Seq<char>) -> Set<Seq<char>> {
    Set::new(|name: Seq<char>| graph_features(graph).dom().contains((id, name)))
}

/// `PackageMetadata::named_features`: the features of a package, each once.
#[verifier::external_body]
fn named_features(graph: &PackageGraph, id: &str) -> (r: Vec<String>)
    requires
        graph_packages(*graph).dom().contains(id@),
    ensures
        lists(r@, feature_names(*graph, id@)),
{
    let metadata = graph.metadata(&PackageId::new(id)).unwrap();
    metadata.named_features().map(|name| name.to_owned()).collect()
}

/// `FeatureGraph::directly_depends_on` for two features of one package: whether
/// the first enables the second directly.
#[verifier::external_body]
fn feature_enables(graph: &PackageGraph, id: &str, from: &str, to: &str) -> (r: bool)
    requires
        feature_names(*graph, id@).contains(from@),
        feature_names(*graph, id@).contains(to@),
    ensures
        r == graph_features(*graph)[(id@, from@)].contains(to@),
{
    let id = PackageId::new(id);
    let features = graph.feature_graph();
    features.directly_depends_on(FeatureId::named(&id, from), FeatureId::named(&id, to)).unwrap()
}

/// Whether a package is as the graph says.
pub open spec fn package_matches(graph: PackageGraph, package: Package) -> bool {
    let info = graph_packages(graph)[package.id@];
    &&& graph_packages(graph).dom().contains(package.id@)
    &&& package.name@ == info.name
    &&& package.version@ == info.version
    &&& package.crates_io == info.crates_io
    &&& package.proc_macro == info.proc_macro
    &&& package.build_script == info.build_script
}

/// Whether a link is as the graph says of the dependency on `to`.
pub open spec fn link_matches(graph: PackageGraph, from: Seq<char>, to: Seq<char>, link: Link) -> bool {
    let info = graph_links(graph)[(from, to)];
    &&& graph_links(graph).dom().contains((from, to))
    &&& link.dep_name@ == info.dep_name
    &&& link.normal == info.normal
    &&& link.development == info.development
    &&& link.build == info.build
}

/// Whether the links of the first package are those that the graph has for it.
pub open spec fn links_match(graph: PackageGraph, package: Package, packages: Seq<Package>) -> bool {
    &&& forall|k: int|
        0 <= k < package.links@.len() ==> (#[trigger] package.links@[k]).to < packages.len()
            && link_matches(
            graph,
            package.id@,
            packages[package.links@[k].to as int].id@,
            package.links@[k],
        )
    &&& forall|to: Seq<char>| #[trigger]
        linked_ids(graph, package.id@).contains(to) ==> exists|k: int|
            0 <= k < package.links@.len() && packages[(#[trigger] package.links@[k]).to as int].id@
                == to
    &&& forall|k: int, l: int|
        0 <= k < l < package.links@.len() ==> (#[trigger] package.links@[k]).to != (
        #[trigger] package.links@[l]).to
}

/// Whether a list holds the packages of a graph, each once and with its links.
pub open spec fn describes(packages: Seq<Package>, graph: PackageGraph) -> bool {
    &&& forall|p: int| 0 <= p < packages.len() ==> package_matches(graph, #[trigger] packages[p])
    &&& forall|id: Seq<char>| #[trigger]
        graph_packages(graph).dom().contains(id) ==> exists|p: int|
            0 <= p < packages.len() && (#[trigger] packages[p]).id@ == id
    &&& forall|p: int, q: int|
        0 <= p < q < packages.len() ==> (#[trigger] packages[p]).id@ != (
        #[trigger] packages[q]).id@
    &&& forall|p: int|
        0 <= p < packages.len() ==> links_match(graph, #[trigger] packages[p], packages)
}

/// A package of the graph, without its links.
fn read_package(graph: &PackageGraph, id: &String) -> (r: Package)
    requires
        graph_packages(*graph).dom().contains(id@),
    ensures
        r.id@ == id@,
        package_matches(*graph, r),
        r.links@.len() == 0,
{
    let key = id.as_str();
    Package {
        id: id.clone(),
        name: package_name(graph, key),
        version: VetVersion {
            semver: package_semver(graph, key),
            git_rev: package_git_rev(graph, key),
        },
        crates_io: package_is_crates_io(graph, key),
        proc_macro: package_is_proc_macro(graph, key),
        build_script: package_has_build_script(graph, key),
        links: Vec::new(),
    }
}

/// When the dependency between two packages is followed for one kind.
fn read_status(graph: &PackageGraph, from: &str, to: &str, kind: DependencyKind) -> (r: LinkStatus)
    requires
        graph_packages(*graph).dom().contains(from@),
        graph_links(*graph).dom().contains((from@, to@)),
    ensures
        r == graph_links(*graph)[(from@, to@)].status(kind),
{
    LinkStatus {
        required: link_required(graph, from, to, kind),
        enabled: link_enabled(graph, from, to, kind),
    }
}

/// The position of an id.
fn find_id(ids: &Vec<String>, id: &String) -> (r: usize)
    requires
        exists|i: int| 0 <= i < ids@.len() && (#[trigger] ids@[i])@ == id@,
    ensures
        r < ids@.len(),
        ids@[r as int]@ == id@,
{
    let mut i: usize = 0;
    while i < ids.len()
        invariant
            i <= ids@.len(),
            exists|x: int| i <= x < ids@.len() && (#[trigger] ids@[x])@ == id@,
        decreases ids@.len() - i,
    {
        if text_eq(&ids[i], id) {
            return i;
        }
        i = i + 1;
    }
    i
}

/// The links of a package of the graph, each to a position in `ids`.
fn read_links(graph: &PackageGraph, from: &String, ids: &Vec<String>) -> (r: Vec<Link>)
    requires
        lists(ids@, graph_packages(*graph).dom()),
        graph_packages(*graph).dom().contains(from@),
    ensures
        forall|k: int|
            0 <= k < r@.len() ==> (#[trigger] r@[k]).to < ids@.len() && link_matches(
                *graph,
                from@,
                ids@[r@[k].to as int]@,
                r@[k],
            ),
        forall|to: Seq<char>| #[trigger]
            linked_ids(*graph, from@).contains(to) ==> exists|k: int|
                0 <= k < r@.len() && ids@[(#[trigger] r@[k]).to as int]@ == to,
        forall|k: int, l: int|
            0 <= k < l < r@.len() ==> (#[trigger] r@[k]).to != (#[trigger] r@[l]).to,
{
    let key = from.as_str();
    let to_ids = direct_links(graph, key);
    let mut links: Vec<Link> = Vec::new();
    let mut k: usize = 0;
    while k < to_ids.len()
        invariant
            lists(ids@, graph_packages(*graph).dom()),
            graph_packages(*graph).dom().contains(from@),
            key@ == from@,
            lists(to_ids@, linked_ids(*graph, from@)),
            forall|x: int|
                0 <= x < to_ids@.len() ==> graph_packages(*graph).dom().contains(
                    (#[trigger] to_ids@[x])@,
                ),
            k <= to_ids@.len(),
            links@.len() == k,
            forall|x: int|
                0 <= x < k ==> (#[trigger] links@[x]).to < ids@.len()
                    && ids@[links@[x].to as int]@ == to_ids@[x]@ && link_matches(
                    *graph,
                    from@,
                    to_ids@[x]@,
                    links@[x],
                ),
        decreases to_ids@.len() - k,
    {
        let to = to_ids[k].as_str();
        assert(linked_ids(*graph, from@).contains(to_ids@[k as int]@));
        assert(graph_packages(*graph).dom().contains(to_ids@[k as int]@));
        let link = Link {
            to: find_id(ids, &to_ids[k]),
            dep_name: link_dep_name(graph, key, to),
            normal: read_status(graph, key, to, DependencyKind::Normal),
            development: read_status(graph, key, to, DependencyKind::Development),
            build: read_status(graph, key, to, DependencyKind::Build),
        };
        links.push(link);
        k = k + 1;
    }
    proof {
        assert forall|to: Seq<char>| #[trigger]
            linked_ids(*graph, from@).contains(to) implies exists|k: int|
            0 <= k < links@.len() && ids@[(#[trigger] links@[k]).to as int]@ == to by {
            let x = choose|x: int| 0 <= x < to_ids@.len() && (#[trigger] to_ids@[x])@ == to;
            assert(ids@[links@[x].to as int]@ == to);
        }
        assert forall|k: int, l: int| 0 <= k < l < links@.len() implies (#[trigger] links@[k]).to
            != (#[trigger] links@[l]).to by {
            assert(to_ids@[k]@ != to_ids@[l]@);
        }
    }
    links
}

/// The packages of a graph, in no particular order.
pub fn read_packages(graph: &PackageGraph) -> (r: Vec<Package>)
    ensures
        describes(r@, *graph),
{
    let ids = package_ids(graph);
    let mut packages: Vec<Package> = Vec::new();
    let mut p: usize = 0;
    while p < ids.len()
        invariant
            lists(ids@, graph_packages(*graph).dom()),
            p <= ids@.len(),
            packages@.len() == p,
            forall|x: int|
                0 <= x < p ==> package_matches(*graph, #[trigger] packages@[x])
                    && packages@[x].id@ == ids@[x]@,
            forall|x: int, k: int|
                0 <= x < p && 0 <= k < packages@[x].links@.len() ==> (
                #[trigger] packages@[x].links@[k]).to < ids@.len() && link_matches(
                    *graph,
                    ids@[x]@,
                    ids@[packages@[x].links@[k].to as int]@,
                    packages@[x].links@[k],
                ),
            forall|x: int, to: Seq<char>|
                0 <= x < p && #[trigger] linked_ids(*graph, ids@[x]@).contains(to) ==> exists|
                    k: int,
                |
                    0 <= k < packages@[x].links@.len() && ids@[(
                    #[trigger] packages@[x].links@[k]).to as int]@ == to,
            forall|x: int, k: int, l: int|
                0 <= x < p && 0 <= k < l < packages@[x].links@.len() ==> (
                #[trigger] packages@[x].links@[k]).to != (#[trigger] packages@[x].links@[l]).to,
        decreases ids@.len() - p,
    {
        assert(graph_packages(*graph).dom().contains(ids@[p as int]@));
        let mut package = read_package(graph, &ids[p]);
        package.links = read_links(graph, &ids[p], &ids);
        let ghost before = packages@;
        packages.push(package);
        assert forall|x: int, to: Seq<char>|
            0 <= x < p + 1 && #[trigger] linked_ids(*graph, ids@[x]@).contains(to) implies exists|
            k: int,
        |
            0 <= k < packages@[x].links@.len() && ids@[(#[trigger] packages@[x].links@[k]).to as int]@
                == to by {
            if x < p {
                assert(packages@[x] == before[x]);
                let k = choose|k: int|
                    0 <= k < before[x].links@.len() && ids@[(
                    #[trigger] before[x].links@[k]).to as int]@ == to;
                assert(ids@[packages@[x].links@[k].to as int]@ == to);
            } else {
                assert(packages@[x] == package);
                let k = choose|k: int|
                    0 <= k < package.links@.len() && ids@[(
                    #[trigger] package.links@[k]).to as int]@ == to;
                assert(ids@[packages@[x].links@[k].to as int]@ == to);
            }
        }
        p = p + 1;
    }
    proof {
        assert forall|id: Seq<char>| #[trigger]
            graph_packages(*graph).dom().contains(id) implies exists|p: int|
            0 <= p < packages@.len() && (#[trigger] packages@[p]).id@ == id by {
            let i = choose|i: int| 0 <= i < ids@.len() && (#[trigger] ids@[i])@ == id;
            assert(packages@[i].id@ == id);
        }
        assert forall|p: int| 0 <= p < packages@.len() implies links_match(
            *graph,
            #[trigger] packages@[p],
            packages@,
        ) by {
            let package = packages@[p];
            assert forall|k: int| 0 <= k < package.links@.len() implies (
            #[trigger] package.links@[k]).to < packages@.len() && link_matches(
                *graph,
                package.id@,
                packages@[package.links@[k].to as int].id@,
                package.links@[k],
            ) by {
                assert(packages@[p].links@[k].to < ids@.len());
                assert(package_matches(*graph, packages@[package.links@[k].to as int]));
            }
            assert forall|to: Seq<char>| #[trigger]
                linked_ids(*graph, package.id@).contains(to) implies exists|k: int|
                0 <= k < package.links@.len() && packages@[(
                #[trigger] package.links@[k]).to as int].id@ == to by {
                assert(linked_ids(*graph, ids@[p]@).contains(to));
                let k = choose|k: int|
                    0 <= k < packages@[p].links@.len() && ids@[(
                    #[trigger] packages@[p].links@[k]).to as int]@ == to;
                assert(package_matches(*graph, packages@[package.links@[k].to as int]));
                assert(packages@[package.links@[k].to as int].id@ == to);
            }
        }
    }
    packages
}

/// The positions of packages of the graph.
pub fn find_packages(graph: &PackageGraph, packages: &Vec<Package>, ids: &Vec<String>) -> (r: Vec<
    usize,
>)
    requires
        describes(packages@, *graph),
        forall|j: int|
            0 <= j < ids@.len() ==> graph_packages(*graph).dom().contains((#[trigger] ids@[j])@),
    ensures
        r@.len() == ids@.len(),
        forall|j: int|
            0 <= j < ids@.len() ==> (#[trigger] r@[j]) < packages@.len()
                && packages@[r@[j] as int].id@ == ids@[j]@,
{
    let mut all: Vec<String> = Vec::new();
    let mut p: usize = 0;
    while p < packages.len()
        invariant
            p <= packages@.len(),
            all@.len() == p,
            forall|x: int| 0 <= x < p ==> (#[trigger] all@[x])@ == packages@[x].id@,
        decreases packages@.len() - p,
    {
        all.push(packages[p].id.clone());
        p = p + 1;
    }
    let mut r: Vec<usize> = Vec::new();
    let mut j: usize = 0;
    while j < ids.len()
        invariant
            describes(packages@, *graph),
            forall|j: int|
                0 <= j < ids@.len() ==> graph_packages(*graph).dom().contains(
                    (#[trigger] ids@[j])@,
                ),
            all@.len() == packages@.len(),
            forall|x: int|
                0 <= x < packages@.len() ==> (#[trigger] all@[x])@ == packages@[x].id@,
            j <= ids@.len(),
            r@.len() == j,
            forall|x: int|
                0 <= x < j ==> (#[trigger] r@[x]) < packages@.len() && packages@[r@[x] as int].id@
                    == ids@[x]@,
        decreases ids@.len() - j,
    {
        proof {
            let id = ids@[j as int]@;
            assert(graph_packages(*graph).dom().contains(id));
            let q = choose|q: int| 0 <= q < packages@.len() && (#[trigger] packages@[q]).id@ == id;
            assert(all@[q]@ == id);
        }
        r.push(find_id(&all, &ids[j]));
        j = j + 1;
    }
    r
}

/// What a simulated build enables on one platform.
fn read_platform_features(
    build: &CargoSet,
    platform: BuildPlatform,
    packages: &Vec<Package>,
) -> (r: Vec<Vec<bool>>)
    ensures
        r@.len() == packages@.len(),
        forall|p: int|
            0 <= p < packages@.len() ==> (#[trigger] r@[p])@.len() == packages@[p].links@.len(),
        forall|p: int, k: int|
            0 <= p < packages@.len() && 0 <= k < packages@[p].links@.len() ==> (
            #[trigger] r@[p]@[k]) == enabled_dependencies(*build).contains(
                (platform, packages@[p].id@, packages@[p].links@[k].dep_name@),
            ),
{
    let mut rows: Vec<Vec<bool>> = Vec::new();
    let mut p: usize = 0;
    while p < packages.len()
        invariant
            p <= packages@.len(),
            rows@.len() == p,
            forall|x: int|
                0 <= x < p ==> (#[trigger] rows@[x])@.len() == packages@[x].links@.len(),
            forall|x: int, k: int|
                0 <= x < p && 0 <= k < packages@[x].links@.len() ==> (#[trigger] rows@[x]@[k])
                    == enabled_dependencies(*build).contains(
                    (platform, packages@[x].id@, packages@[x].links@[k].dep_name@),
                ),
        decreases packages@.len() - p,
    {
        let package = &packages[p];
        let mut row: Vec<bool> = Vec::new();
        let mut k: usize = 0;
        while k < package.links.len()
            invariant
                k <= package.links@.len(),
                row@.len() == k,
                forall|x: int|
                    0 <= x < k ==> (#[trigger] row@[x]) == enabled_dependencies(*build).contains(
                        (platform, package.id@, package.links@[x].dep_name@),
                    ),
            decreases package.links@.len() - k,
        {
            row.push(
                enables_dependency(
                    build,
                    platform,
                    package.id.as_str(),
                    package.links[k].dep_name.as_str(),
                ),
            );
            k = k + 1;
        }
        rows.push(row);
        p = p + 1;
    }
    rows
}

/// Which links the features of a simulated build enable.
pub fn read_features(
    graph: &PackageGraph,
    packages: &Vec<Package>,
    initials: &Vec<String>,
    include_dev: bool,
    resolver: CargoResolverVersion,
) -> (r: BuildFeatures)
    requires
        forall|j: int|
            0 <= j < initials@.len() ==> graph_packages(*graph).dom().contains(
                (#[trigger] initials@[j])@,
            ),
    ensures
        r.fits(packages@),
        forall|platform: BuildPlatform, p: int, k: int|
            0 <= p < packages@.len() && 0 <= k < packages@[p].links@.len() ==> (#[trigger] r.has(
                platform,
                p,
                k,
            )) == resolved_dependencies(
                *graph,
                id_set(initials@),
                include_dev,
                resolver,
            ).contains((platform, packages@[p].id@, packages@[p].links@[k].dep_name@)),
{
    let build = simulate_build(graph, initials, include_dev, resolver);
    BuildFeatures {
        target: read_platform_features(&build, BuildPlatform::Target, packages),
        host: read_platform_features(&build, BuildPlatform::Host, packages),
    }
}

/// Whether a feature is as the graph says.
pub open spec fn feature_matches(graph: PackageGraph, id: Seq<char>, feature: Feature) -> bool {
    let names = feature_names(graph, id);
    &&& names.contains(feature.name@)
    &&& forall|to: Seq<char>| #[trigger]
        text::texts(feature.enables@).contains(to) == (names.contains(to)
            && graph_features(graph)[(id, feature.name@)].contains(to))
}

/// Whether features are those that a package has, each once.
pub open spec fn features_match(graph: PackageGraph, id: Seq<char>, r: PackageFeatures) -> bool {
    &&& r.in_workspace == workspace_members(graph).contains(id)
    &&& forall|k: int|
        0 <= k < r.features@.len() ==> feature_matches(graph, id, #[trigger] r.features@[k])
    &&& forall|name: Seq<char>| #[trigger]
        feature_names(graph, id).contains(name) ==> exists|k: int|
            0 <= k < r.features@.len() && (#[trigger] r.features@[k]).name@ == name
    &&& forall|k: int, l: int|
        0 <= k < l < r.features@.len() ==> (#[trigger] r.features@[k]).name@ != (
        #[trigger] r.features@[l]).name@
}

/// What a feature of a package enables.
fn read_enabled(graph: &PackageGraph, id: &str, names: &Vec<String>, from: &String) -> (r: Vec<
    String,
>)
    requires
        lists(names@, feature_names(*graph, id@)),
        feature_names(*graph, id@).contains(from@),
    ensures
        forall|to: Seq<char>| #[trigger]
            text::texts(r@).contains(to) == (feature_names(*graph, id@).contains(to)
                && graph_features(*graph)[(id@, from@)].contains(to)),
{
    let ghost on = graph_features(*graph)[(id@, from@)];
    let mut r: Vec<String> = Vec::new();
    let mut k: usize = 0;
    while k < names.len()
        invariant
            lists(names@, feature_names(*graph, id@)),
            feature_names(*graph, id@).contains(from@),
            on == graph_features(*graph)[(id@, from@)],
            k <= names@.len(),
            forall|to: Seq<char>| #[trigger]
                text::texts(r@).contains(to) == (on.contains(to) && exists|x: int|
                    0 <= x < k && (#[trigger] names@[x])@ == to),
        decreases names@.len() - k,
    {
        let ghost before = text::texts(r@);
        let ghost name = names@[k as int]@;
        assert(feature_names(*graph, id@).contains(names@[k as int]@));
        if feature_enables(graph, id, from.as_str(), names[k].as_str()) {
            r.push(names[k].clone());
            assert(text::texts(r@) =~= before.push(name));
        }
        proof {
            assert forall|to: Seq<char>| #[trigger]
                text::texts(r@).contains(to) == (on.contains(to) && exists|x: int|
                    0 <= x < k + 1 && (#[trigger] names@[x])@ == to) by {
                assert(before.contains(to) == (on.contains(to) && exists|x: int|
                    0 <= x < k && (#[trigger] names@[x])@ == to));
                if before.contains(to) {
                    let j = choose|j: int| 0 <= j < before.len() && before[j] == to;
                    assert(text::texts(r@)[j] == to);
                }
                if on.contains(to) && to == name {
                    assert(text::texts(r@)[before.len() as int] == to);
                    assert(names@[k as int]@ == to);
                }
                if text::texts(r@).contains(to) {
                    let j = choose|j: int| 0 <= j < text::texts(r@).len() && text::texts(r@)[j] == to;
                    if j < before.len() {
                        assert(before[j] == to);
                    } else {
                        assert(names@[k as int]@ == to);
                    }
                }
            }
        }
        k = k + 1;
    }
    proof {
        assert forall|to: Seq<char>| #[trigger]
            text::texts(r@).contains(to) == (feature_names(*graph, id@).contains(to)
                && on.contains(to)) by {
            if feature_names(*graph, id@).contains(to) {
                let x = choose|x: int| 0 <= x < names@.len() && (#[trigger] names@[x])@ == to;
                assert(names@[x]@ == to);
            }
        }
    }
    r
}

/// The features of a package.
fn read_package_features(graph: &PackageGraph, id: &String, members: &Vec<String>) -> (r:
    PackageFeatures)
    requires
        graph_packages(*graph).dom().contains(id@),
        lists(members@, workspace_members(*graph)),
    ensures
        features_match(*graph, id@, r),
{
    let key = id.as_str();
    let names = named_features(graph, key);
    let mut features: Vec<Feature> = Vec::new();
    let mut k: usize = 0;
    while k < names.len()
        invariant
            key@ == id@,
            lists(names@, feature_names(*graph, id@)),
            k <= names@.len(),
            features@.len() == k,
            forall|x: int|
                0 <= x < k ==> feature_matches(*graph, id@, #[trigger] features@[x])
                    && features@[x].name@ == names@[x]@,
        decreases names@.len() - k,
    {
        assert(feature_names(*graph, id@).contains(names@[k as int]@));
        let enables = read_enabled(graph, key, &names, &names[k]);
        features.push(Feature { name: names[k].clone(), enables });
        k = k + 1;
    }
    let in_workspace = texts_contain(members, key);
    let r = PackageFeatures { in_workspace, features };
    proof {
        assert(in_workspace == workspace_members(*graph).contains(id@)) by {
            if workspace_members(*graph).contains(id@) {
                let x = choose|x: int| 0 <= x < members@.len() && (#[trigger] members@[x])@ == id@;
                assert(text::texts(members@)[x] == id@);
            }
            if in_workspace {
                let x = choose|x: int|
                    0 <= x < text::texts(members@).len() && text::texts(members@)[x] == id@;
                assert(workspace_members(*graph).contains(members@[x]@));
            }
        }
        assert forall|name: Seq<char>| #[trigger]
            feature_names(*graph, id@).contains(name) implies exists|k: int|
            0 <= k < r.features@.len() && (#[trigger] r.features@[k]).name@ == name by {
            let x = choose|x: int| 0 <= x < names@.len() && (#[trigger] names@[x])@ == name;
            assert(r.features@[x].name@ == name);
        }
        assert forall|k: int, l: int| 0 <= k < l < r.features@.len() implies (
        #[trigger] r.features@[k]).name@ != (#[trigger] r.features@[l]).name@ by {
            assert(names@[k]@ != names@[l]@);
        }
    }
    r
}

/// The features of all packages.
pub fn read_declared_features(graph: &PackageGraph, packages: &Vec<Package>) -> (r: Vec<
    PackageFeatures,
>)
    requires
        describes(packages@, *graph),
    ensures
        r@.len() == packages@.len(),
        forall|p: int|
            0 <= p < packages@.len() ==> features_match(
                *graph,
                packages@[p].id@,
                #[trigger] r@[p],
            ),
{
    let members = workspace_ids(graph);
    let mut r: Vec<PackageFeatures> = Vec::new();
    let mut p: usize = 0;
    while p < packages.len()
        invariant
            describes(packages@, *graph),
            lists(members@, workspace_members(*graph)),
            p <= packages@.len(),
            r@.len() == p,
            forall|x: int|
                0 <= x < p ==> features_match(*graph, packages@[x].id@, #[trigger] r@[x]),
        decreases packages@.len() - p,
    {
        assert(package_matches(*graph, packages@[p as int]));
        r.push(read_package_features(graph, &packages[p].id, &members));
        p = p + 1;
    }
    r
}

} // verus!
