//! What a build comes by.

use vstd::prelude::*;
use guppy::graph::cargo::CargoResolverVersion;
use guppy::graph::PackageGraph;
use crate::criteria;
use crate::criteria::{CriteriaMapper, CriteriaSet};
use crate::package_graph;
use crate::packages::{BuildPlatform, DependencyKind, EnabledTernary, Package};
use crate::records::{ConfigFile, PackagePolicyEntry, PolicyEntry};
use crate::requirements;
use crate::requirements::{resolve_requirements, BuildModel, Visit};
use crate::sorted_map::SortedMap;
use crate::text;
use crate::version::VetVersionView;

verus! {


/// Whether a policy is the one for a version of a package: one without versions is
/// for all of them, and of those with versions the first for this one counts.
pub open spec fn is_policy(
    policy: SortedMap<PackagePolicyEntry>,
    name: Seq<char>,
    version: VetVersionView,
    r: Option<PolicyEntry>,
) -> bool {
    match policy.get_spec(name) {
        Some(PackagePolicyEntry::Unversioned(entry)) => r == Some(entry),
        Some(PackagePolicyEntry::Versioned { version: list }) => match r {
            Some(entry) => exists|k: int|
                0 <= k < list@.len() && (#[trigger] list@[k]).0@ == version && list@[k].1 == entry
                    && forall|j: int| 0 <= j < k ==> (#[trigger] list@[j]).0@ != version,
            None => forall|k: int| 0 <= k < list@.len() ==> (#[trigger] list@[k]).0@ != version,
        },
        None => r is None,
    }
}

proof fn lemma_versioned(s: Seq<(crate::version::VetVersion, PolicyEntry)>, version: VetVersionView)
    ensures
        match crate::packages::versioned_policy(s, version) {
            Some(entry) => exists|k: int|
                0 <= k < s.len() && (#[trigger] s[k]).0@ == version && s[k].1 == entry && forall|
                    j: int,
                | 0 <= j < k ==> (#[trigger] s[j]).0@ != version,
            None => forall|k: int| 0 <= k < s.len() ==> (#[trigger] s[k]).0@ != version,
        },
    decreases s.len(),
{
    if s.len() > 0 {
        if s[0].0@ == version {
            assert(s[0].1 == s[0].1);
        } else {
            let t = s.drop_first();
            lemma_versioned(t, version);
            match crate::packages::versioned_policy(t, version) {
                Some(entry) => {
                    let k = choose|k: int|
                        0 <= k < t.len() && (#[trigger] t[k]).0@ == version && t[k].1 == entry
                            && forall|j: int| 0 <= j < k ==> (#[trigger] t[j]).0@ != version;
                    assert(s[k + 1] == t[k]);
                    assert forall|j: int| 0 <= j < k + 1 implies (#[trigger] s[j]).0@ != version by {
                        if j > 0 {
                            assert(t[j - 1] == s[j]);
                        }
                    }
                },
                None => {
                    assert forall|k: int| 0 <= k < s.len() implies (#[trigger] s[k]).0@
                        != version by {
                        if k > 0 {
                            assert(t[k - 1] == s[k]);
                        }
                    }
                },
            }
        }
    }
}

/// The policy for a package is the one for its name and version, and a package
/// needs audits if it comes from the registry, or if its policy says so.
pub proof fn law_policies_are_for_versions(package: Package, policy: SortedMap<PackagePolicyEntry>)
    ensures
        is_policy(policy, package.name@, package.version@, package.policy(policy)),
        package.third_party(policy) <==> package.crates_io || (package.policy(policy) matches Some(
            entry,
        ) && entry.audit_as_crates_io == Some(true)),
{
    if let Some(PackagePolicyEntry::Versioned { version: list }) = policy.get_spec(package.name@) {
        lemma_versioned(list@, package.version@);
    }
}

/// Whether a build follows a link for one kind of dependency: it does unless the
/// link is disabled. Whether a feature enables the link decides which of its two
/// states counts. Development dependencies are for development builds, and build
/// dependencies for packages with a build script, in every build.
pub open spec fn is_followed(model: BuildModel, u: Visit, k: int, kind: DependencyKind) -> bool {
    let package = model.packages[u.package];
    let status = match kind {
        DependencyKind::Normal => package.links@[k].normal,
        DependencyKind::Development => package.links@[k].development,
        DependencyKind::Build => package.links@[k].build,
    };
    &&& 0 <= u.package < model.packages.len()
    &&& 0 <= k < package.links@.len()
    &&& (if model.enabled.contains((u.platform, u.package, k)) {
        status.enabled
    } else {
        status.required
    }) != EnabledTernary::Disabled
    &&& kind == DependencyKind::Development ==> model.dev_pass
    &&& kind == DependencyKind::Build ==> package.build_script
}

/// Whether a package that has to meet some criteria asks others of a dependency:
/// those that its policy states for the name of the dependency, or the same.
pub open spec fn is_passed_on(
    model: BuildModel,
    p: int,
    to: int,
    own: CriteriaSet,
    asked: CriteriaSet,
) -> bool {
    match model.packages[p].policy(model.config.policy) {
        Some(entry) => match entry.dependency_criteria.get_spec(model.packages[to].name@) {
            Some(list) => asked == criteria::criteria_of(model.mapper, text::texts(list@)),
            None => asked == own,
        },
        None => asked == own,
    }
}

/// Whether a package has to meet some criteria when others are asked of it: those
/// of its policy, if it states some, or the same. A development build goes by the
/// development criteria; without those it asks no more than the others.
pub open spec fn is_met(
    model: BuildModel,
    p: int,
    asked: CriteriaSet,
    r: CriteriaSet,
) -> bool {
    match model.packages[p].policy(model.config.policy) {
        Some(entry) => if model.dev_pass && entry.dev_criteria is Some {
            r == criteria::criteria_of(model.mapper, text::texts(entry.dev_criteria->0@))
        } else if entry.criteria is Some {
            let stated = criteria::criteria_of(model.mapper, text::texts(entry.criteria->0@));
            if model.dev_pass {
                forall|i: int| #[trigger] r.has(i) <==> asked.has(i) && stated.has(i)
            } else {
                r == stated
            }
        } else {
            r == asked
        },
        None => r == asked,
    }
}

/// Whether a visit is one that a build starts with: one of the packages that it is
/// of, for the target unless the package is a procedural macro.
pub open spec fn is_start(model: BuildModel, v: Visit) -> bool {
    let list = if model.dev_pass {
        model.config.root_policy.dev_criteria
    } else {
        model.config.root_policy.criteria
    };
    let default_name = if model.dev_pass {
        "safe-to-run"@
    } else {
        "safe-to-deploy"@
    };
    let asked = criteria::criteria_of(
        model.mapper,
        match list {
            Some(list) => text::texts(list@),
            None => seq![default_name],
        },
    );
    &&& model.initials.contains(v.package)
    &&& v.platform == if model.packages[v.package].proc_macro {
        BuildPlatform::Host
    } else {
        BuildPlatform::Target
    }
    &&& is_met(model, v.package, asked, v.criteria)
}

/// Whether a visit leads to another over a link. Build dependencies and procedural
/// macros are built for the host, all else for the same platform.
pub open spec fn leads_to(
    model: BuildModel,
    u: Visit,
    k: int,
    kind: DependencyKind,
    v: Visit,
) -> bool {
    let to = model.packages[u.package].links@[k].to as int;
    &&& is_followed(model, u, k, kind)
    &&& v.package == to
    &&& v.platform == if kind == DependencyKind::Build || model.packages[to].proc_macro {
        BuildPlatform::Host
    } else {
        u.platform
    }
    &&& exists|asked: CriteriaSet| #[trigger]
        is_passed_on(model, u.package, to, u.criteria, asked) && is_met(
            model,
            to,
            asked,
            v.criteria,
        )
}

proof fn lemma_met(model: BuildModel, p: int, asked: CriteriaSet, r: CriteriaSet)
    ensures
        is_met(model, p, asked, r) <==> r == model.self_criteria(p, asked),
{
    if let Some(c) = model.policy_criteria(p) {
        CriteriaSet::lemma_intersection(asked, c);
        if is_met(model, p, asked, r) && model.dev_pass && model.policy_dev_criteria(p) is None {
            CriteriaSet::lemma_ext(r, asked.intersection(c));
        }
    }
}

proof fn lemma_passed(model: BuildModel, p: int, k: int, own: CriteriaSet, asked: CriteriaSet)
    ensures
        is_passed_on(model, p, model.packages[p].links@[k].to as int, own, asked) <==> asked
            == model.link_criteria(p, k, own),
{
}

proof fn lemma_leads(model: BuildModel, u: Visit, k: int, kind: DependencyKind, v: Visit)
    ensures
        leads_to(model, u, k, kind, v) <==> is_followed(model, u, k, kind) && v
            == model.over_link(u, k, kind == DependencyKind::Build),
{
    let to = model.packages[u.package].links@[k].to as int;
    let asked = model.link_criteria(u.package, k, u.criteria);
    lemma_passed(model, u.package, k, u.criteria, asked);
    lemma_met(model, to, asked, v.criteria);
    if leads_to(model, u, k, kind, v) {
        let other = choose|other: CriteriaSet| #[trigger]
            is_passed_on(model, u.package, to, u.criteria, other) && is_met(
                model,
                to,
                other,
                v.criteria,
            );
        lemma_passed(model, u.package, k, u.criteria, other);
    }
}

/// A build comes by what it starts with, and from there over every link that it
/// follows to what the link leads to, in either pass and for every kind of
/// dependency.
pub proof fn law_builds_follow_links(
    model: BuildModel,
    u: Visit,
    k: int,
    kind: DependencyKind,
    v: Visit,
)
    ensures
        is_start(model, v) ==> model.reaches(v),
        model.reaches(u) && leads_to(model, u, k, kind, v) ==> model.reaches(v),
{
    if is_start(model, v) {
        lemma_met(model, v.package, model.initial_criteria(), v.criteria);
        assert(model.is_initial(v));
        model.lemma_reaches_initial(v);
    }
    if model.reaches(u) && leads_to(model, u, k, kind, v) {
        lemma_leads(model, u, k, kind, v);
        let to_host = kind == DependencyKind::Build;
        assert(model.packages[u.package].links@[k].status(kind) == match kind {
            DependencyKind::Normal => model.packages[u.package].links@[k].normal,
            DependencyKind::Development => model.packages[u.package].links@[k].development,
            DependencyKind::Build => model.packages[u.package].links@[k].build,
        });
        assert(model.takes_link(u, k, to_host));
        model.lemma_reaches_next(u, k, to_host);
    }
}

/// A build comes by nothing else: each visit is one that it starts with, or one
/// that another visit leads to.
pub proof fn law_visits_are_led_to(model: BuildModel, v: Visit)
    requires
        model.reaches(v),
    ensures
        is_start(model, v) || exists|u: Visit, k: int, kind: DependencyKind|
            model.reaches(u) && #[trigger] leads_to(model, u, k, kind, v),
{
    let (c, links) = choose|c: Seq<Visit>, links: Seq<(int, bool)>| #[trigger]
        model.is_chain(c, links) && c.last() == v;
    if c.len() == 1 {
        lemma_met(model, v.package, model.initial_criteria(), v.criteria);
        assert(is_start(model, v));
    } else {
        let n = links.len() - 1;
        let u = c[n];
        let (k, to_host) = links[n];
        assert(model.takes_link(c[n], links[n].0, links[n].1) && c[n + 1] == model.over_link(
            c[n],
            links[n].0,
            links[n].1,
        ));
        let c0 = c.drop_last();
        let links0 = links.drop_last();
        assert(model.is_chain(c0, links0)) by {
            assert forall|i: int| 0 <= i < links0.len() implies model.takes_link(
                c0[i],
                (#[trigger] links0[i]).0,
                links0[i].1,
            ) && c0[i + 1] == model.over_link(c0[i], links0[i].0, links0[i].1) by {
                assert(links0[i] == links[i]);
            }
        }
        assert(c0.last() == u);
        assert(model.reaches(u));
        let kind = if to_host {
            DependencyKind::Build
        } else if model.follows(u.platform, u.package, k, DependencyKind::Normal) {
            DependencyKind::Normal
        } else {
            DependencyKind::Development
        };
        assert(is_followed(model, u, k, kind));
        lemma_leads(model, u, k, kind, v);
        assert(leads_to(model, u, k, kind, v));
    }
}

/// Whether a model is that of the build of packages with all their features.
pub open spec fn is_build(
    model: BuildModel,
    graph: PackageGraph,
    resolver: CargoResolverVersion,
    config: ConfigFile,
    m: CriteriaMapper,
    packages: Seq<Package>,
    ids: Set<Seq<char>>,
    dev_pass: bool,
) -> bool {
    &&& model.config == config
    &&& model.mapper == m
    &&& model.packages == packages
    &&& model.dev_pass == dev_pass
    &&& forall|p: int| #[trigger]
        model.initials.contains(p) <==> 0 <= p < packages.len() && ids.contains(packages[p].id@)
    &&& forall|platform: BuildPlatform, p: int, k: int| #[trigger]
        model.enabled.contains((platform, p, k)) <==> 0 <= p < packages.len() && 0 <= k
            < packages[p].links@.len() && package_graph::resolved_dependencies(
            graph,
            ids,
            dev_pass,
            resolver,
        ).contains((platform, packages[p].id@, packages[p].links@[k].dep_name@))
}

/// Whether a build comes by a package with a criterion.
pub open spec fn asks(model: BuildModel, p: int, i: int) -> bool {
    exists|v: Visit| #[trigger] model.reaches(v) && v.package == p && v.criteria.has(i)
}

proof fn lemma_build(
    model: BuildModel,
    graph: PackageGraph,
    resolver: CargoResolverVersion,
    config: ConfigFile,
    m: CriteriaMapper,
    packages: Seq<Package>,
    ids: Set<Seq<char>>,
    dev_pass: bool,
)
    ensures
        is_build(model, graph, resolver, config, m, packages, ids, dev_pass) <==> model
            == requirements::graph_build(graph, resolver, config, m, packages, ids, dev_pass),
{
    let other = requirements::graph_build(graph, resolver, config, m, packages, ids, dev_pass);
    if is_build(model, graph, resolver, config, m, packages, ids, dev_pass) {
        assert(model.initials =~= other.initials);
        assert forall|t: (BuildPlatform, int, int)| model.enabled.contains(t)
            == other.enabled.contains(t) by {
            assert(model.enabled.contains((t.0, t.1, t.2)) == other.enabled.contains(
                (t.0, t.1, t.2),
            ));
        }
        assert(model.enabled =~= other.enabled);
    }
}

/// A package has to meet exactly the criteria with which builds come by it, if it
/// needs audits: the development build of the whole workspace, and the build of
/// each of its roots.
pub proof fn law_requirements_are_those_of_builds(
    graph: &PackageGraph,
    packages: &Vec<Package>,
    config: &ConfigFile,
    m: &CriteriaMapper,
    resolver: CargoResolverVersion,
    r: Vec<CriteriaSet>,
    p: int,
    i: int,
)
    requires
        call_ensures(resolve_requirements, (graph, packages, config, m, resolver), r),
        0 <= p < packages@.len(),
    ensures
        r@.len() == packages@.len(),
        r@[p].has(i) <==> packages@[p].third_party(config.policy) && exists|model: BuildModel|
            #[trigger]
            asks(model, p, i) && (is_build(
                model,
                *graph,
                resolver,
                *config,
                *m,
                packages@,
                package_graph::workspace_members(*graph),
                true,
            ) || exists|root: Seq<char>| #[trigger]
                package_graph::workspace_roots(*graph).contains(root) && is_build(
                    model,
                    *graph,
                    resolver,
                    *config,
                    *m,
                    packages@,
                    set![root],
                    false,
                )),
{
    let members = package_graph::workspace_members(*graph);
    let dev = requirements::graph_build(*graph, resolver, *config, *m, packages@, members, true);
    assert(r@[p].has(i) == requirements::workspace_requires(
        *graph,
        resolver,
        *config,
        *m,
        packages@,
        p,
        i,
    ));
    lemma_build(dev, *graph, resolver, *config, *m, packages@, members, true);
    if r@[p].has(i) {
        if dev.requires_criterion(p, i) {
            assert(asks(dev, p, i));
        } else {
            let root = choose|root: Seq<char>|
                package_graph::workspace_roots(*graph).contains(root)
                    && #[trigger] requirements::graph_build(
                    *graph,
                    resolver,
                    *config,
                    *m,
                    packages@,
                    set![root],
                    false,
                ).requires_criterion(p, i);
            let b = requirements::graph_build(
                *graph,
                resolver,
                *config,
                *m,
                packages@,
                set![root],
                false,
            );
            lemma_build(b, *graph, resolver, *config, *m, packages@, set![root], false);
            assert(asks(b, p, i));
        }
    }
    assert forall|model: BuildModel, root: Seq<char>|
        package_graph::workspace_roots(*graph).contains(root) && asks(model, p, i)
            && packages@[p].third_party(config.policy) && is_build(
            model,
            *graph,
            resolver,
            *config,
            *m,
            packages@,
            set![root],
            false,
        ) implies r@[p].has(i) by {
        lemma_build(model, *graph, resolver, *config, *m, packages@, set![root], false);
        assert(model.requires_criterion(p, i));
    }
    assert forall|model: BuildModel| #[trigger] asks(model, p, i) && packages@[p].third_party(
        config.policy,
    ) && is_build(model, *graph, resolver, *config, *m, packages@, members, true) implies r@[p].has(
        i,
    ) by {
        lemma_build(model, *graph, resolver, *config, *m, packages@, members, true);
    }
}

} // verus!
