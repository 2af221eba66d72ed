//! What holds of the criteria that a build asks of its packages.

use vstd::prelude::*;
use guppy::graph::cargo::CargoResolverVersion;
use guppy::graph::PackageGraph;
use crate::audit_graph;
use crate::audit_graph::{AuditItem, WildcardItem};
use crate::criteria;
use crate::criteria::{CriteriaMapper, CriteriaSet};
use crate::edges::SearchMode;
use crate::implications;
use crate::package_graph;
use crate::packages::Package;
use crate::records::{
    AuditsFile, ConfigFile, CratesPublisherView, CriteriaEntry, Store, TrustEntryView,
};
use crate::requirements;
use crate::requirements::{BuildModel, Visit};
use crate::search::NodeView;
use crate::sorted_map;
use crate::sorted_map::SortedMap;
use crate::text;
use crate::version::VetVersionView;

verus! {

/// Whether a set holds known criteria only, with all that they imply.
pub open spec fn is_closed(m: CriteriaMapper, s: CriteriaSet) -> bool {
    &&& forall|i: int| #[trigger] s.has(i) ==> i < m.names@.len()
    &&& forall|i: int, j: int|
        #![trigger s.has(i), m.implies_index(i, j)]
        s.has(i) && m.implies_index(i, j) ==> s.has(j)
}

/// Whether a set holds only criteria that their names stand for, with all that
/// they imply.
pub open spec fn is_nameable(m: CriteriaMapper, s: CriteriaSet) -> bool {
    is_closed(m, s) && forall|i: int| #[trigger] s.has(i) ==> implications::is_named(m, i)
}

proof fn lemma_list_closed(
    m: CriteriaMapper,
    declared: SortedMap<CriteriaEntry>,
    list: Seq<Seq<char>>,
)
    requires
        m.wf(),
        criteria::models_criteria(m, declared),
    ensures
        is_nameable(m, criteria::criteria_of(m, list)),
{
    let s = criteria::criteria_of(m, list);
    assert forall|i: int| #[trigger] s.has(i) implies implications::is_named(m, i) by {
        implications::lemma_list_named(m, declared, list, i);
    }
    assert forall|i: int, j: int|
        #![trigger s.has(i), m.implies_index(i, j)]
        s.has(i) && m.implies_index(i, j) implies s.has(j) by {
        implications::law_criteria_are_closed(m, declared, list, i, j);
    }
}

proof fn lemma_listed_closed(
    m: CriteriaMapper,
    declared: SortedMap<CriteriaEntry>,
    list: Option<Vec<String>>,
)
    requires
        m.wf(),
        criteria::models_criteria(m, declared),
    ensures
        requirements::listed_criteria(m, list) matches Some(c) ==> is_nameable(m, c),
{
    if let Some(names) = list {
        lemma_list_closed(m, declared, text::texts(names@));
    }
}

proof fn lemma_self_closed(
    model: BuildModel,
    declared: SortedMap<CriteriaEntry>,
    p: int,
    asked: CriteriaSet,
)
    requires
        model.mapper.wf(),
        criteria::models_criteria(model.mapper, declared),
        is_nameable(model.mapper, asked),
    ensures
        is_nameable(model.mapper, model.self_criteria(p, asked)),
{
    let m = model.mapper;
    if let Some(entry) = model.policy(p) {
        lemma_listed_closed(m, declared, entry.criteria);
        lemma_listed_closed(m, declared, entry.dev_criteria);
    }
    if let Some(c) = model.policy_criteria(p) {
        CriteriaSet::lemma_intersection(asked, c);
        let both = asked.intersection(c);
        assert forall|i: int, j: int|
            #![trigger both.has(i), m.implies_index(i, j)]
            both.has(i) && m.implies_index(i, j) implies both.has(j) by {
            assert(asked.has(i) && c.has(i));
        }
        assert(is_nameable(m, both));
    }
}

proof fn lemma_visit_closed(
    model: BuildModel,
    declared: SortedMap<CriteriaEntry>,
    c: Seq<Visit>,
    links: Seq<(int, bool)>,
    n: int,
)
    requires
        model.mapper.wf(),
        criteria::models_criteria(model.mapper, declared),
        model.is_chain(c, links),
        0 <= n < c.len(),
    ensures
        is_nameable(model.mapper, c[n].criteria),
    decreases n,
{
    let m = model.mapper;
    if n == 0 {
        lemma_listed_closed(m, declared, model.config.root_policy.criteria);
        lemma_listed_closed(m, declared, model.config.root_policy.dev_criteria);
        lemma_list_closed(m, declared, seq![criteria::safe_to_run()]);
        lemma_list_closed(m, declared, seq![criteria::safe_to_deploy()]);
        lemma_self_closed(model, declared, c[0].package, model.initial_criteria());
    } else {
        lemma_visit_closed(model, declared, c, links, n - 1);
        let u = c[n - 1];
        let k = links[n - 1].0;
        assert(c[n - 1 + 1] == model.over_link(u, k, links[n - 1].1));
        let to = model.packages[model.packages[u.package].links@[k].to as int];
        if let Some(entry) = model.policy(u.package) {
            if let Some(names) = entry.dependency_criteria.get_spec(to.name@) {
                lemma_list_closed(m, declared, text::texts(names@));
            }
        }
        lemma_self_closed(
            model,
            declared,
            model.packages[u.package].links@[k].to as int,
            model.link_criteria(u.package, k, u.criteria),
        );
    }
}

/// A build asks only criteria of a package that their names stand for, and with
/// each criterion all that it implies.
pub proof fn law_build_asks_closed_criteria(
    model: BuildModel,
    declared: SortedMap<CriteriaEntry>,
    p: int,
    i: int,
)
    requires
        model.mapper.wf(),
        criteria::models_criteria(model.mapper, declared),
        model.requires_criterion(p, i),
    ensures
        implications::is_named(model.mapper, i),
        forall|j: int| #[trigger]
            model.mapper.implies_index(i, j) ==> model.requires_criterion(p, j),
{
    let v = choose|v: Visit| #[trigger]
        model.reaches(v) && v.package == p && v.criteria.has(i);
    let (c, links) = choose|c: Seq<Visit>, links: Seq<(int, bool)>| #[trigger]
        model.is_chain(c, links) && c.last() == v;
    lemma_visit_closed(model, declared, c, links, c.len() - 1);
    assert(v.criteria.has(i));
    assert forall|j: int| #[trigger] model.mapper.implies_index(i, j) implies
        model.requires_criterion(p, j) by {
        assert(v.criteria.has(j));
    }
}

/// A workspace asks only criteria of a package that their names stand for, and
/// with each criterion all that it implies.
pub proof fn law_workspace_asks_closed_criteria(
    graph: PackageGraph,
    resolver: CargoResolverVersion,
    config: ConfigFile,
    m: CriteriaMapper,
    declared: SortedMap<CriteriaEntry>,
    packages: Seq<Package>,
    p: int,
    i: int,
)
    requires
        m.wf(),
        criteria::models_criteria(m, declared),
        requirements::workspace_requires(graph, resolver, config, m, packages, p, i),
    ensures
        implications::is_named(m, i),
        forall|j: int| #[trigger]
            m.implies_index(i, j) ==> requirements::workspace_requires(
                graph,
                resolver,
                config,
                m,
                packages,
                p,
                j,
            ),
{
    let dev = requirements::graph_build(
        graph,
        resolver,
        config,
        m,
        packages,
        package_graph::workspace_members(graph),
        true,
    );
    if dev.requires_criterion(p, i) {
        law_build_asks_closed_criteria(dev, declared, p, i);
        assert forall|j: int| #[trigger] m.implies_index(i, j) implies
            requirements::workspace_requires(graph, resolver, config, m, packages, p, j) by {
            assert(dev.mapper.implies_index(i, j));
        }
    } else {
        let root = choose|root: Seq<char>|
            package_graph::workspace_roots(graph).contains(root)
                && #[trigger] requirements::graph_build(
                graph,
                resolver,
                config,
                m,
                packages,
                set![root],
                false,
            ).requires_criterion(p, i);
        let build = requirements::graph_build(
            graph,
            resolver,
            config,
            m,
            packages,
            set![root],
            false,
        );
        law_build_asks_closed_criteria(build, declared, p, i);
        assert forall|j: int| #[trigger] m.implies_index(i, j) implies
            requirements::workspace_requires(graph, resolver, config, m, packages, p, j) by {
            assert(build.mapper.implies_index(i, j));
            assert(build.requires_criterion(p, j));
        }
    }
}

/// Where a policy states criteria but no development criteria, a development
/// build asks no more of the package than these criteria.
pub proof fn law_development_asks_no_more(model: BuildModel, v: Visit)
    requires
        model.dev_pass,
        model.policy_dev_criteria(v.package) is None,
        model.policy_criteria(v.package) is Some,
        model.reaches(v),
    ensures
        model.policy_criteria(v.package)->0.covers(v.criteria),
{
    let limit = model.policy_criteria(v.package)->0;
    let (c, links) = choose|c: Seq<Visit>, links: Seq<(int, bool)>| #[trigger]
        model.is_chain(c, links) && c.last() == v;
    if c.len() == 1 {
        CriteriaSet::lemma_intersection(model.initial_criteria(), limit);
    } else {
        let n = links.len() - 1;
        let u = c[n];
        assert(c[n + 1] == model.over_link(u, links[n].0, links[n].1));
        CriteriaSet::lemma_intersection(
            model.link_criteria(u.package, links[n].0, u.criteria),
            limit,
        );
    }
}

proof fn lemma_audits_closed(
    m: CriteriaMapper,
    declared: SortedMap<CriteriaEntry>,
    items: Seq<AuditItem>,
    n: int,
)
    requires
        m.wf(),
        criteria::models_criteria(m, declared),
        0 <= n < audit_graph::audit_edges(m, items).len(),
    ensures
        is_closed(m, audit_graph::audit_edges(m, items)[n].criteria),
    decreases items.len(),
{
    let all = audit_graph::audit_edges(m, items);
    let rest = audit_graph::audit_edges(m, items.drop_last());
    if n < rest.len() {
        lemma_audits_closed(m, declared, items.drop_last(), n);
        assert(all[n] == rest[n]);
    } else {
        lemma_list_closed(m, declared, items.last().entry.criteria);
    }
}

proof fn lemma_wildcards_closed(
    m: CriteriaMapper,
    declared: SortedMap<CriteriaEntry>,
    p: usize,
    release: CratesPublisherView,
    items: Seq<WildcardItem>,
    n: int,
)
    requires
        m.wf(),
        criteria::models_criteria(m, declared),
        0 <= n < audit_graph::wildcard_edges(m, p, release, items).len(),
    ensures
        is_closed(m, audit_graph::wildcard_edges(m, p, release, items)[n].criteria),
    decreases items.len(),
{
    let all = audit_graph::wildcard_edges(m, p, release, items);
    let rest = audit_graph::wildcard_edges(m, p, release, items.drop_last());
    if n < rest.len() {
        lemma_wildcards_closed(m, declared, p, release, items.drop_last(), n);
        assert(all[n] == rest[n]);
    } else {
        lemma_list_closed(m, declared, items.last().entry.criteria);
    }
}

proof fn lemma_trusted_closed(
    m: CriteriaMapper,
    declared: SortedMap<CriteriaEntry>,
    p: usize,
    release: CratesPublisherView,
    trusted: Seq<TrustEntryView>,
    n: int,
)
    requires
        m.wf(),
        criteria::models_criteria(m, declared),
        0 <= n < audit_graph::trusted_edges(m, p, release, trusted).len(),
    ensures
        is_closed(m, audit_graph::trusted_edges(m, p, release, trusted)[n].criteria),
    decreases trusted.len(),
{
    let all = audit_graph::trusted_edges(m, p, release, trusted);
    let rest = audit_graph::trusted_edges(m, p, release, trusted.drop_last());
    if n < rest.len() {
        lemma_trusted_closed(m, declared, p, release, trusted.drop_last(), n);
        assert(all[n] == rest[n]);
    } else {
        lemma_list_closed(m, declared, trusted.last().criteria);
    }
}

proof fn lemma_releases_closed(
    m: CriteriaMapper,
    declared: SortedMap<CriteriaEntry>,
    releases: Seq<CratesPublisherView>,
    items: Seq<WildcardItem>,
    trusted: Seq<TrustEntryView>,
    n: int,
)
    requires
        m.wf(),
        criteria::models_criteria(m, declared),
        0 <= n < audit_graph::release_edges(m, releases, items, trusted).len(),
    ensures
        is_closed(m, audit_graph::release_edges(m, releases, items, trusted)[n].criteria),
    decreases releases.len(),
{
    let i = (releases.len() - 1) as usize;
    let all = audit_graph::release_edges(m, releases, items, trusted);
    let rest = audit_graph::release_edges(m, releases.drop_last(), items, trusted);
    let w = audit_graph::wildcard_edges(m, i, releases.last(), items);
    let t = audit_graph::trusted_edges(m, i, releases.last(), trusted);
    if n < rest.len() {
        lemma_releases_closed(m, declared, releases.drop_last(), items, trusted, n);
        assert(all[n] == rest[n]);
    } else if n < rest.len() + w.len() {
        lemma_wildcards_closed(m, declared, i, releases.last(), items, n - rest.len());
        assert(all[n] == w[n - rest.len()]);
    } else {
        lemma_trusted_closed(m, declared, i, releases.last(), trusted, n - rest.len() - w.len());
        assert(all[n] == t[n - rest.len() - w.len()]);
    }
}

proof fn lemma_all_closed(m: CriteriaMapper)
    requires
        m.wf(),
    ensures
        is_closed(m, criteria::all_set(m.names@.len() as int)),
{
    lemma_all_set(m.names@.len() as int);
}

pub proof fn lemma_all_set(n: int)
    requires
        n <= 64,
    ensures
        forall|i: int| #[trigger] criteria::all_set(n).has(i) == (0 <= i < n),
    decreases n,
{
    if n <= 0 {
        CriteriaSet::lemma_empty();
    } else {
        lemma_all_set(n - 1);
        CriteriaSet::lemma_with(criteria::all_set(n - 1), n - 1);
    }
}

/// An entry of the store that counts for a criterion counts for all that the
/// criterion implies.
pub proof fn law_edges_follow_implications(
    store: Store,
    m: CriteriaMapper,
    declared: SortedMap<CriteriaEntry>,
    name: Seq<char>,
    extra: Option<AuditsFile>,
    n: int,
)
    requires
        m.wf(),
        criteria::models_criteria(m, declared),
        0 <= n < audit_graph::store_edges(store, m, name, extra).len(),
    ensures
        is_closed(m, audit_graph::store_edges(store, m, name, extra)[n].criteria),
{
    let files = audit_graph::source_files(store, extra);
    let items = audit_graph::all_audits(files, name);
    let releases = sorted_map::views_at(store.live().publisher, name);
    let wildcards = audit_graph::all_wildcards(files, name);
    let trusted = sorted_map::views_at(store.audits.trusted, name);
    let exemptions = sorted_map::views_at(store.config.exemptions, name);
    let a1 = audit_graph::audit_edges(m, items);
    let a2 = audit_graph::release_edges(m, releases, wildcards, trusted);
    let a3 = audit_graph::unpublished_edges(
        m,
        sorted_map::views_at(store.live().unpublished, name),
    );
    let n2 = n - a1.len();
    let n3 = n2 - a2.len();
    let n4 = n3 - a3.len();
    if n < a1.len() {
        lemma_audits_closed(m, declared, items, n);
    } else if n2 < a2.len() {
        lemma_releases_closed(m, declared, releases, wildcards, trusted, n2);
    } else if n3 < a3.len() {
        lemma_all_closed(m);
    } else {
        lemma_list_closed(m, declared, exemptions[n4].criteria);
    }
}

/// A package that can be shown to meet a criterion can be shown to meet all that
/// the criterion implies.
pub proof fn law_vetting_follows_implications(
    store: Store,
    m: CriteriaMapper,
    declared: SortedMap<CriteriaEntry>,
    name: Seq<char>,
    extra: Option<AuditsFile>,
    i: int,
    j: int,
    version: VetVersionView,
    mode: SearchMode,
    v: Option<VetVersionView>,
)
    requires
        m.wf(),
        criteria::models_criteria(m, declared),
        m.implies_index(i, j),
        audit_graph::to_root(
            audit_graph::store_edges(store, m, name, extra),
            i,
            version,
            mode,
        ).reachable(v),
    ensures
        audit_graph::to_root(
            audit_graph::store_edges(store, m, name, extra),
            j,
            version,
            mode,
        ).reachable(v),
{
    let s = audit_graph::store_edges(store, m, name, extra);
    let a = audit_graph::to_root(s, i, version, mode);
    let b = audit_graph::to_root(s, j, version, mode);
    let w = choose|w: Seq<NodeView>| #[trigger] a.is_walk(w) && w.last().version == v;
    assert(b.is_walk(w)) by {
        assert forall|n: int| 0 <= n < w.len() - 1 implies b.is_successor(
            #[trigger] w[n],
            w[n + 1],
        ) by {
            let x = w[n];
            let y = w[n + 1];
            assert(a.is_successor(w[n], w[n + 1]));
            if exists|k: int| a.follows(x, y, k) {
                let k = choose|k: int| a.follows(x, y, k);
                let e = audit_graph::lemma_backward_member(s, x.version, k);
                law_edges_follow_implications(store, m, declared, name, extra, e);
                assert(s[e].criteria.has(i) ==> s[e].criteria.has(j));
                assert(b.follows(x, y, k));
            }
        }
    }
}

} // verus!
