//! When an updated store vets everything.

use vstd::prelude::*;
use guppy::graph::cargo::CargoResolverVersion;
use guppy::graph::PackageGraph;
use crate::audit_graph;
use crate::audit_graph::{AuditItem, EdgeView, SourceFile, WildcardItem};
use crate::criteria;
use crate::criteria::{CriteriaMapper, CriteriaSet};
use crate::demands;
use crate::edges::SearchMode;
use crate::implications;
use crate::order;
use crate::package_graph;
use crate::packages::Package;
use crate::preserve;
use crate::records::{
    AuditEntry, AuditEntryView, ConfigFile, CratesPublisherView, CriteriaEntry,
    ExemptedDependencyView, Store, TrustEntryView,
};
use crate::required::Demand;
use crate::requirements;
use crate::requirements::{BuildModel, Visit};
use crate::resolve;
use crate::resolve::ResolveReport;
use crate::retain;
use crate::search;
use crate::search::{NodeView, Query};
use crate::sorted_map;
use crate::sorted_map::SortedMap;
use crate::text;
use crate::update;
use crate::update::{StoreUpdates, UpdateBasis, UpdateModel, UpdateModes};
use crate::version::VetVersionView;

verus! {

/// Whether two mappers hold the same criteria.
spec fn agree(a: CriteriaMapper, b: CriteriaMapper) -> bool {
    &&& text::texts(a.names@) == text::texts(b.names@)
    &&& a.implied@ == b.implied@
    &&& forall|list: Seq<Seq<char>>| #[trigger]
        criteria::criteria_of(a, list) == criteria::criteria_of(b, list)
}

proof fn lemma_same_criteria_of(a: CriteriaMapper, b: CriteriaMapper, list: Seq<Seq<char>>)
    requires
        text::texts(a.names@) == text::texts(b.names@),
        a.implied@ == b.implied@,
    ensures
        criteria::criteria_of(a, list) == criteria::criteria_of(b, list),
    decreases list.len(),
{
    if list.len() > 0 {
        lemma_same_criteria_of(a, b, list.drop_last());
    }
}

/// The declared criteria fix a mapper.
proof fn lemma_agree(a: CriteriaMapper, b: CriteriaMapper, declared: SortedMap<CriteriaEntry>)
    requires
        a.wf(),
        b.wf(),
        criteria::models_criteria(a, declared),
        criteria::models_criteria(b, declared),
    ensures
        agree(a, b),
{
    assert(text::texts(a.names@).len() == a.names@.len());
    assert(text::texts(b.names@).len() == b.names@.len());
    assert forall|x: int| 0 <= x < a.implied@.len() implies a.implied@[x] == b.implied@[x] by {
        assert forall|y: int| #[trigger] a.implied@[x].has(y) == b.implied@[x].has(y) by {}
        CriteriaSet::lemma_ext(a.implied@[x], b.implied@[x]);
    }
    assert(a.implied@ =~= b.implied@);
    assert forall|list: Seq<Seq<char>>| #[trigger]
        criteria::criteria_of(a, list) == criteria::criteria_of(b, list) by {
        lemma_same_criteria_of(a, b, list);
    }
}

proof fn lemma_led_agree(a: CriteriaMapper, b: CriteriaMapper, s: CriteriaSet, i: int)
    requires
        agree(a, b),
        implications::is_led(a, s, i),
    ensures
        implications::is_led(b, s, i),
{
    let j = choose|j: int| #[trigger]
        criteria::is_minimal(a, s, j) && s.has(j) && a.implies_index(j, i);
    assert forall|k: int| #[trigger] s.has(k) && k != j implies !b.implies_index(k, j) by {
        assert(!a.implies_index(k, j));
    }
    assert(criteria::is_minimal(b, s, j));
}

proof fn lemma_audit_edges_agree(a: CriteriaMapper, b: CriteriaMapper, items: Seq<AuditItem>)
    requires
        agree(a, b),
    ensures
        audit_graph::audit_edges(a, items) == audit_graph::audit_edges(b, items),
    decreases items.len(),
{
    if items.len() > 0 {
        lemma_audit_edges_agree(a, b, items.drop_last());
        assert(audit_graph::audit_edge(a, items.last()) == audit_graph::audit_edge(
            b,
            items.last(),
        ));
    }
}

proof fn lemma_wildcard_edges_agree(
    a: CriteriaMapper,
    b: CriteriaMapper,
    i: usize,
    release: CratesPublisherView,
    items: Seq<WildcardItem>,
)
    requires
        agree(a, b),
    ensures
        audit_graph::wildcard_edges(a, i, release, items) == audit_graph::wildcard_edges(
            b,
            i,
            release,
            items,
        ),
    decreases items.len(),
{
    if items.len() > 0 {
        lemma_wildcard_edges_agree(a, b, i, release, items.drop_last());
        let list = items.last().entry.criteria;
        assert(criteria::criteria_of(a, list) == criteria::criteria_of(b, list));
    }
}

proof fn lemma_trusted_edges_agree(
    a: CriteriaMapper,
    b: CriteriaMapper,
    i: usize,
    release: CratesPublisherView,
    trusted: Seq<TrustEntryView>,
)
    requires
        agree(a, b),
    ensures
        audit_graph::trusted_edges(a, i, release, trusted) == audit_graph::trusted_edges(
            b,
            i,
            release,
            trusted,
        ),
    decreases trusted.len(),
{
    if trusted.len() > 0 {
        lemma_trusted_edges_agree(a, b, i, release, trusted.drop_last());
        let list = trusted.last().criteria;
        assert(criteria::criteria_of(a, list) == criteria::criteria_of(b, list));
    }
}

proof fn lemma_release_edges_agree(
    a: CriteriaMapper,
    b: CriteriaMapper,
    releases: Seq<CratesPublisherView>,
    items: Seq<WildcardItem>,
    trusted: Seq<TrustEntryView>,
)
    requires
        agree(a, b),
    ensures
        audit_graph::release_edges(a, releases, items, trusted) == audit_graph::release_edges(
            b,
            releases,
            items,
            trusted,
        ),
    decreases releases.len(),
{
    if releases.len() > 0 {
        let i = (releases.len() - 1) as usize;
        lemma_release_edges_agree(a, b, releases.drop_last(), items, trusted);
        lemma_wildcard_edges_agree(a, b, i, releases.last(), items);
        lemma_trusted_edges_agree(a, b, i, releases.last(), trusted);
    }
}

proof fn lemma_exemption_edges_agree(
    a: CriteriaMapper,
    b: CriteriaMapper,
    entries: Seq<ExemptedDependencyView>,
)
    requires
        agree(a, b),
    ensures
        audit_graph::exemption_edges(a, entries) == audit_graph::exemption_edges(b, entries),
{
    let x = audit_graph::exemption_edges(a, entries);
    let y = audit_graph::exemption_edges(b, entries);
    assert forall|k: int| 0 <= k < entries.len() implies x[k] == y[k] by {
        let list = entries[k].criteria;
        assert(criteria::criteria_of(a, list) == criteria::criteria_of(b, list));
    }
    assert(x =~= y);
}

/// The edges of a graph depend on the criteria alone.
proof fn lemma_edges_agree(store: Store, a: CriteriaMapper, b: CriteriaMapper, name: Seq<char>)
    requires
        agree(a, b),
    ensures
        audit_graph::store_edges(store, a, name, None) == audit_graph::store_edges(
            store,
            b,
            name,
            None,
        ),
{
    let files = audit_graph::source_files(store, None);
    assert(text::texts(a.names@).len() == text::texts(b.names@).len());
    lemma_audit_edges_agree(a, b, audit_graph::all_audits(files, name));
    lemma_release_edges_agree(
        a,
        b,
        sorted_map::views_at(store.live().publisher, name),
        audit_graph::all_wildcards(files, name),
        sorted_map::views_at(store.audits.trusted, name),
    );
    lemma_exemption_edges_agree(a, b, sorted_map::views_at(store.config.exemptions, name));
}

proof fn lemma_trips_agree(
    a: CriteriaMapper,
    b: CriteriaMapper,
    violated: Seq<Seq<char>>,
    audited: Seq<Seq<char>>,
)
    requires
        agree(a, b),
    ensures
        audit_graph::trips(a, violated, audited) == audit_graph::trips(b, violated, audited),
{
    assert(criteria::criteria_of(a, audited) == criteria::criteria_of(b, audited));
    assert forall|k: int| 0 <= k < violated.len() implies criteria::criteria_of(
        a,
        seq![#[trigger] violated[k]],
    ) == criteria::criteria_of(b, seq![violated[k]]) by {}
}

proof fn lemma_conflicts_of_agree(
    a: CriteriaMapper,
    b: CriteriaMapper,
    violations: Seq<AuditItem>,
    items: Seq<AuditItem>,
    exemptions: Seq<ExemptedDependencyView>,
)
    requires
        agree(a, b),
    ensures
        audit_graph::conflicts_of(a, violations, items, exemptions) == audit_graph::conflicts_of(
            b,
            violations,
            items,
            exemptions,
        ),
    decreases violations.len(),
{
    if violations.len() > 0 {
        lemma_conflicts_of_agree(a, b, violations.drop_last(), items, exemptions);
        lemma_exemption_conflicts_agree(a, b, violations.last(), exemptions);
        lemma_audit_conflicts_agree(a, b, violations.last(), items);
    }
}

proof fn lemma_exemption_conflicts_agree(
    a: CriteriaMapper,
    b: CriteriaMapper,
    violation: AuditItem,
    exemptions: Seq<ExemptedDependencyView>,
)
    requires
        agree(a, b),
    ensures
        audit_graph::exemption_conflicts(a, violation, exemptions)
            == audit_graph::exemption_conflicts(b, violation, exemptions),
    decreases exemptions.len(),
{
    if exemptions.len() > 0 {
        lemma_exemption_conflicts_agree(a, b, violation, exemptions.drop_last());
        lemma_trips_agree(a, b, violation.entry.criteria, exemptions.last().criteria);
    }
}

proof fn lemma_audit_conflicts_agree(
    a: CriteriaMapper,
    b: CriteriaMapper,
    violation: AuditItem,
    items: Seq<AuditItem>,
)
    requires
        agree(a, b),
    ensures
        audit_graph::audit_conflicts(a, violation, items) == audit_graph::audit_conflicts(
            b,
            violation,
            items,
        ),
    decreases items.len(),
{
    if items.len() > 0 {
        lemma_audit_conflicts_agree(a, b, violation, items.drop_last());
        lemma_trips_agree(a, b, violation.entry.criteria, items.last().entry.criteria);
    }
}

/// The conflicts depend on the criteria alone.
proof fn lemma_conflicts_agree(store: Store, a: CriteriaMapper, b: CriteriaMapper, name: Seq<char>)
    requires
        agree(a, b),
    ensures
        audit_graph::store_conflicts(store, a, name, None) == audit_graph::store_conflicts(
            store,
            b,
            name,
            None,
        ),
{
    let items = audit_graph::all_audits(audit_graph::source_files(store, None), name);
    lemma_conflicts_of_agree(
        a,
        b,
        items,
        items,
        sorted_map::views_at(store.config.exemptions, name),
    );
}

/// Where a package stands in another listing of the packages.
proof fn lemma_find(
    graph: PackageGraph,
    packages: Seq<Package>,
    others: Seq<Package>,
    p: int,
) -> (q: int)
    requires
        package_graph::describes(packages, graph),
        package_graph::describes(others, graph),
        0 <= p < packages.len(),
    ensures
        0 <= q < others.len(),
        packages[p].id@ == others[q].id@,
        packages[p].name@ == others[q].name@,
        packages[p].version@ == others[q].version@,
        packages[p].crates_io == others[q].crates_io,
{
    assert(package_graph::package_matches(graph, packages[p]));
    let q = choose|q: int|
        0 <= q < others.len() && (#[trigger] others[q]).id@ == packages[p].id@;
    assert(package_graph::package_matches(graph, others[q]));
    q
}

/// Two models of the same build, whose packages may be listed in another order.
spec fn same_build(
    graph: PackageGraph,
    resolver: CargoResolverVersion,
    initials: Set<Seq<char>>,
    a: BuildModel,
    b: BuildModel,
) -> bool {
    &&& a == requirements::graph_build(
        graph,
        resolver,
        a.config,
        a.mapper,
        a.packages,
        initials,
        a.dev_pass,
    )
    &&& b == requirements::graph_build(
        graph,
        resolver,
        b.config,
        b.mapper,
        b.packages,
        initials,
        b.dev_pass,
    )
    &&& a.dev_pass == b.dev_pass
    &&& a.config.root_policy == b.config.root_policy
    &&& a.config.policy == b.config.policy
    &&& agree(a.mapper, b.mapper)
    &&& package_graph::describes(a.packages, graph)
    &&& package_graph::describes(b.packages, graph)
}

/// Whether visits of two models are the same.
spec fn same_visit(a: BuildModel, b: BuildModel, u: Visit, v: Visit) -> bool {
    &&& 0 <= u.package < a.packages.len()
    &&& 0 <= v.package < b.packages.len()
    &&& a.packages[u.package].id@ == b.packages[v.package].id@
    &&& u.platform == v.platform
    &&& u.criteria == v.criteria
}

proof fn lemma_same_self(
    graph: PackageGraph,
    resolver: CargoResolverVersion,
    initials: Set<Seq<char>>,
    a: BuildModel,
    b: BuildModel,
    p: int,
    q: int,
)
    requires
        same_build(graph, resolver, initials, a, b),
        0 <= p < a.packages.len(),
        0 <= q < b.packages.len(),
        a.packages[p].id@ == b.packages[q].id@,
    ensures
        a.packages[p].name@ == b.packages[q].name@,
        a.packages[p].version@ == b.packages[q].version@,
        a.packages[p].build_script == b.packages[q].build_script,
        a.packages[p].proc_macro == b.packages[q].proc_macro,
        a.policy(p) == b.policy(q),
        a.packages[p].third_party(a.config.policy) == b.packages[q].third_party(b.config.policy),
        a.initial_criteria() == b.initial_criteria(),
        forall|asked: CriteriaSet| #[trigger]
            a.self_criteria(p, asked) == b.self_criteria(q, asked),
{
    assert(package_graph::package_matches(graph, a.packages[p]));
    assert(package_graph::package_matches(graph, b.packages[q]));
}

proof fn lemma_same_step(
    graph: PackageGraph,
    resolver: CargoResolverVersion,
    initials: Set<Seq<char>>,
    a: BuildModel,
    b: BuildModel,
    u: Visit,
    v: Visit,
    k: int,
    to_host: bool,
) -> (l: int)
    requires
        same_build(graph, resolver, initials, a, b),
        same_visit(a, b, u, v),
        a.takes_link(u, k, to_host),
    ensures
        b.takes_link(v, l, to_host),
        same_visit(a, b, a.over_link(u, k, to_host), b.over_link(v, l, to_host)),
{
    let p = u.package;
    let q = v.package;
    let link = a.packages[p].links@[k];
    let to = a.packages[link.to as int].id@;
    assert(package_graph::links_match(graph, a.packages[p], a.packages));
    assert(package_graph::links_match(graph, b.packages[q], b.packages));
    assert(package_graph::link_matches(graph, a.packages[p].id@, to, link));
    assert(package_graph::linked_ids(graph, b.packages[q].id@).contains(to));
    let l = choose|l: int|
        0 <= l < b.packages[q].links@.len() && b.packages[(
        #[trigger] b.packages[q].links@[l]).to as int].id@ == to;
    let other = b.packages[q].links@[l];
    assert(package_graph::link_matches(graph, b.packages[q].id@, to, other));
    lemma_same_self(graph, resolver, initials, a, b, p, q);
    lemma_same_self(graph, resolver, initials, a, b, link.to as int, other.to as int);
    assert(a.enabled.contains((u.platform, p, k)) == b.enabled.contains((v.platform, q, l)));
    l
}

proof fn lemma_same_reach(
    graph: PackageGraph,
    resolver: CargoResolverVersion,
    initials: Set<Seq<char>>,
    a: BuildModel,
    b: BuildModel,
    c: Seq<Visit>,
    links: Seq<(int, bool)>,
) -> (v: Visit)
    requires
        same_build(graph, resolver, initials, a, b),
        a.is_chain(c, links),
    ensures
        b.reaches(v),
        same_visit(a, b, c.last(), v),
    decreases c.len(),
{
    if c.len() == 1 {
        let u = c[0];
        let p = u.package;
        assert(package_graph::package_matches(graph, a.packages[p]));
        let q = choose|q: int|
            0 <= q < b.packages.len() && (#[trigger] b.packages[q]).id@ == a.packages[p].id@;
        lemma_same_self(graph, resolver, initials, a, b, p, q);
        let v = Visit { package: q, ..u };
        assert(b.is_initial(v));
        b.lemma_reaches_initial(v);
        v
    } else {
        let n = links.len() - 1;
        let c0 = c.drop_last();
        let links0 = links.drop_last();
        assert(a.is_chain(c0, links0)) by {
            assert forall|i: int| 0 <= i < links0.len() implies a.takes_link(
                c0[i],
                (#[trigger] links0[i]).0,
                links0[i].1,
            ) && c0[i + 1] == a.over_link(c0[i], links0[i].0, links0[i].1) by {
                assert(links0[i] == links[i]);
            }
        }
        let v = lemma_same_reach(graph, resolver, initials, a, b, c0, links0);
        assert(a.takes_link(c[n], links[n].0, links[n].1));
        let l = lemma_same_step(
            graph,
            resolver,
            initials,
            a,
            b,
            c0.last(),
            v,
            links[n].0,
            links[n].1,
        );
        b.lemma_reaches_next(v, l, links[n].1);
        b.over_link(v, l, links[n].1)
    }
}

proof fn lemma_same_requirement(
    graph: PackageGraph,
    resolver: CargoResolverVersion,
    initials: Set<Seq<char>>,
    a: BuildModel,
    b: BuildModel,
    p: int,
    q: int,
    i: int,
)
    requires
        same_build(graph, resolver, initials, a, b),
        0 <= p < a.packages.len(),
        0 <= q < b.packages.len(),
        a.packages[p].id@ == b.packages[q].id@,
        a.requires_criterion(p, i),
    ensures
        b.requires_criterion(q, i),
{
    let u = choose|u: Visit| #[trigger] a.reaches(u) && u.package == p && u.criteria.has(i);
    let (c, links) = choose|c: Seq<Visit>, links: Seq<(int, bool)>| #[trigger]
        a.is_chain(c, links) && c.last() == u;
    let v = lemma_same_reach(graph, resolver, initials, a, b, c, links);
    lemma_same_self(graph, resolver, initials, a, b, p, q);
    if v.package < q {
        assert(b.packages[v.package].id@ != b.packages[q].id@);
    } else if q < v.package {
        assert(b.packages[q].id@ != b.packages[v.package].id@);
    }
}

/// What a workspace asks of a package depends on neither the order in which
/// packages are listed nor the exemptions.
proof fn lemma_same_asked(
    graph: PackageGraph,
    resolver: CargoResolverVersion,
    config1: ConfigFile,
    config2: ConfigFile,
    m1: CriteriaMapper,
    m2: CriteriaMapper,
    packages1: Seq<Package>,
    packages2: Seq<Package>,
    p: int,
    q: int,
    i: int,
)
    requires
        config1.root_policy == config2.root_policy,
        config1.policy == config2.policy,
        agree(m1, m2),
        package_graph::describes(packages1, graph),
        package_graph::describes(packages2, graph),
        0 <= p < packages1.len(),
        0 <= q < packages2.len(),
        packages1[p].id@ == packages2[q].id@,
        requirements::workspace_requires(graph, resolver, config1, m1, packages1, p, i),
    ensures
        requirements::workspace_requires(graph, resolver, config2, m2, packages2, q, i),
{
    let members = package_graph::workspace_members(graph);
    let a = requirements::graph_build(graph, resolver, config1, m1, packages1, members, true);
    let b = requirements::graph_build(graph, resolver, config2, m2, packages2, members, true);
    if a.requires_criterion(p, i) {
        lemma_same_requirement(graph, resolver, members, a, b, p, q, i);
    } else {
        let root = choose|root: Seq<char>|
            package_graph::workspace_roots(graph).contains(root)
                && #[trigger] requirements::graph_build(
                graph,
                resolver,
                config1,
                m1,
                packages1,
                set![root],
                false,
            ).requires_criterion(p, i);
        let s = set![root];
        let c = requirements::graph_build(graph, resolver, config1, m1, packages1, s, false);
        let d = requirements::graph_build(graph, resolver, config2, m2, packages2, s, false);
        lemma_same_requirement(graph, resolver, s, c, d, p, q, i);
    }
}

/// Whether none of the audits is a violation.
pub open spec fn violation_free(items: Seq<AuditItem>) -> bool {
    forall|k: int| 0 <= k < items.len() ==> !((#[trigger] items[k]).entry.kind is Violation)
}

/// Whether a store has no violations, neither own nor imported ones.
pub open spec fn has_no_violations(store: Store) -> bool {
    forall|name: Seq<char>|
        violation_free(
            #[trigger] audit_graph::all_audits(audit_graph::source_files(store, None), name),
        )
}

proof fn lemma_no_conflicts_of(
    m: CriteriaMapper,
    violations: Seq<AuditItem>,
    items: Seq<AuditItem>,
    exemptions: Seq<ExemptedDependencyView>,
)
    requires
        violation_free(violations),
    ensures
        audit_graph::conflicts_of(m, violations, items, exemptions).len() == 0,
    decreases violations.len(),
{
    if violations.len() > 0 {
        let rest = violations.drop_last();
        assert forall|k: int| 0 <= k < rest.len() implies !((
        #[trigger] rest[k]).entry.kind is Violation) by {
            assert(rest[k] == violations[k]);
        }
        assert(!(violations[violations.len() - 1].entry.kind is Violation));
        lemma_no_conflicts_of(m, rest, items, exemptions);
    }
}

/// Without violations there are no conflicts.
proof fn lemma_no_conflicts(store: Store, m: CriteriaMapper, name: Seq<char>)
    requires
        has_no_violations(store),
    ensures
        audit_graph::store_conflicts(store, m, name, None).len() == 0,
{
    let items = audit_graph::all_audits(audit_graph::source_files(store, None), name);
    lemma_no_conflicts_of(m, items, items, sorted_map::views_at(store.config.exemptions, name));
}

/// The audits of all files have no violations exactly if those of each file have
/// none.
proof fn lemma_file_free(files: Seq<SourceFile>, name: Seq<char>)
    ensures
        violation_free(audit_graph::all_audits(files, name)) == forall|f: int|
            0 <= f < files.len() ==> violation_free(
                audit_graph::file_audits(#[trigger] files[f], name),
            ),
    decreases files.len(),
{
    if files.len() > 0 {
        let front = files.drop_last();
        let x = audit_graph::all_audits(front, name);
        let y = audit_graph::file_audits(files.last(), name);
        let all = audit_graph::all_audits(files, name);
        lemma_file_free(front, name);
        assert(all == x + y);
        if violation_free(all) {
            assert forall|k: int| 0 <= k < x.len() implies !((
            #[trigger] x[k]).entry.kind is Violation) by {
                assert(all[k] == x[k]);
            }
            assert forall|k: int| 0 <= k < y.len() implies !((
            #[trigger] y[k]).entry.kind is Violation) by {
                assert(all[x.len() + k] == y[k]);
            }
            assert(violation_free(x));
            assert forall|f: int| 0 <= f < files.len() implies violation_free(
                audit_graph::file_audits(#[trigger] files[f], name),
            ) by {
                if f < front.len() {
                    assert(front[f] == files[f]);
                }
            }
        }
        if forall|f: int|
            0 <= f < files.len() ==> violation_free(
                audit_graph::file_audits(#[trigger] files[f], name),
            ) {
            assert forall|f: int| 0 <= f < front.len() implies violation_free(
                audit_graph::file_audits(#[trigger] front[f], name),
            ) by {
                assert(front[f] == files[f]);
            }
            assert(violation_free(audit_graph::file_audits(files[files.len() - 1], name)));
            assert(violation_free(x) && violation_free(y));
            assert forall|k: int| 0 <= k < all.len() implies !((
            #[trigger] all[k]).entry.kind is Violation) by {
                if k < x.len() {
                    assert(all[k] == x[k]);
                } else {
                    assert(all[k] == y[k - x.len()]);
                }
            }
        }
    }
}

/// Whether none of the entries is a violation.
spec fn entries_free(list: Seq<AuditEntryView>) -> bool {
    forall|k: int| 0 <= k < list.len() ==> !((#[trigger] list[k]).kind is Violation)
}

proof fn lemma_entries_free(f: SourceFile, name: Seq<char>)
    ensures
        violation_free(audit_graph::file_audits(f, name)) == entries_free(
            sorted_map::views_at(f.file.audits, name),
        ),
{
    let list = sorted_map::views_at(f.file.audits, name);
    let items = audit_graph::file_audits(f, name);
    if violation_free(items) {
        assert forall|k: int| 0 <= k < list.len() implies !((
        #[trigger] list[k]).kind is Violation) by {
            assert(items[k].entry == list[k]);
        }
    }
    if entries_free(list) {
        assert forall|k: int| 0 <= k < items.len() implies !((
        #[trigger] items[k]).entry.kind is Violation) by {
            assert(items[k].entry == list[k]);
        }
    }
}

proof fn lemma_kept_free(list: Seq<AuditEntryView>, flags: Seq<bool>)
    requires
        entries_free(list),
    ensures
        entries_free(retain::kept(list, flags)),
{
    let r = retain::kept(list, flags);
    assert forall|k: int| 0 <= k < r.len() implies !((#[trigger] r[k]).kind is Violation) by {
        assert(r.contains(r[k]));
        let j = retain::lemma_kept_member(list, flags, r[k]);
        assert(!(list[j].kind is Violation));
    }
}

proof fn lemma_retained_free(
    r: SortedMap<Vec<AuditEntry>>,
    map: SortedMap<Vec<AuditEntry>>,
    flags: spec_fn(Seq<char>) -> Seq<bool>,
    name: Seq<char>,
)
    requires
        retain::retains(r, map, flags),
        entries_free(sorted_map::views_at(map, name)),
    ensures
        entries_free(sorted_map::views_at(r, name)),
{
    broadcast use vstd::seq_lib::group_to_multiset_ensures;

    let list = sorted_map::views_at(map, name);
    let kept = retain::kept(list, flags(name));
    let wanted = retain::kept_imports::<AuditEntry>(list, flags(name));
    let v = sorted_map::views_at(r, name);
    lemma_kept_free(list, flags(name));
    assert(retain::is_listed(r.get_spec(name), wanted));
    assert forall|k: int| 0 <= k < v.len() implies !((#[trigger] v[k]).kind is Violation) by {
        let l = r.get_spec(name)->0;
        assert(order::is_arrangement(l@, wanted));
        let w = l@.map_values(|y: AuditEntry| y@);
        assert(v =~= w);
        assert(w.contains(v[k]));
        assert(w.to_multiset().count(v[k]) > 0);
        assert(wanted.contains(v[k]));
        let n = choose|n: int| 0 <= n < wanted.len() && wanted[n] == v[k];
        assert(!(kept[n].kind is Violation));
    }
}

/// An update brings no violations.
proof fn lemma_update_free(model: UpdateModel, after: Store)
    requires
        preserve::is_updated(model, after),
        has_no_violations(model.store),
    ensures
        has_no_violations(after),
{
    let old_files = audit_graph::source_files(model.store, None);
    let files = audit_graph::source_files(after, None);
    let live = model.store.live().audits;
    assert(after.live() == after.imports);
    assert(after.imports.audits.keys().len() == live.keys().len());
    let n = live.entries().len();
    assert(after.imports.audits.entries().len() == n);
    assert forall|name: Seq<char>|
        violation_free(#[trigger] audit_graph::all_audits(files, name)) by {
        lemma_file_free(old_files, name);
        lemma_file_free(files, name);
        assert(violation_free(audit_graph::all_audits(old_files, name)));
        assert forall|f: int| 0 <= f < files.len() implies violation_free(
            audit_graph::file_audits(#[trigger] files[f], name),
        ) by {
            assert(violation_free(audit_graph::file_audits(old_files[f], name)));
            lemma_entries_free(old_files[f], name);
            lemma_entries_free(files[f], name);
            if f < n {
                let file = after.imports.audits.entries()[f].1;
                assert(model.updates_import(f, file));
                lemma_retained_free(
                    file.audits,
                    live.entries()[f].1.audits,
                    |name: Seq<char>| model.audit_flags(f, name),
                    name,
                );
            } else {
                lemma_kept_free(
                    sorted_map::views_at(model.store.audits.audits, name),
                    model.local_flags(name),
                );
            }
        }
    }
}

/// Whether what packages have to meet is kept when criteria are written down: each
/// required criterion is implied by one that no other required one implies, and
/// exemptions keep it.
pub open spec fn criteria_keep(
    m: CriteriaMapper,
    store: Store,
    modes: UpdateModes,
    packages: Seq<Package>,
    required: Seq<CriteriaSet>,
) -> bool {
    forall|p: int, i: int|
        0 <= p < packages.len() && #[trigger] required[p].has(i) ==> implications::is_led(
            m,
            required[p],
            i,
        ) && preserve::exemptions_keep(m, store, modes, packages[p].name@, i)
}

/// Required criteria are kept if no criteria that imply them are in a cycle.
pub proof fn law_acyclic_criteria_are_kept(
    graph: PackageGraph,
    resolver: CargoResolverVersion,
    store: Store,
    modes: UpdateModes,
    m: CriteriaMapper,
    packages: Seq<Package>,
    required: Seq<CriteriaSet>,
)
    requires
        m.wf(),
        criteria::models_criteria(m, store.audits.criteria),
        resolve::are_requirements(graph, resolver, store, m, packages, required),
        forall|p: int, i: int, k: int|
            0 <= p < packages.len() && #[trigger] required[p].has(i) && #[trigger] m.implies_index(
                k,
                i,
            ) ==> implications::is_acyclic(m, k),
    ensures
        criteria_keep(m, store, modes, packages, required),
{
    let declared = store.audits.criteria;
    assert forall|p: int, i: int|
        0 <= p < packages.len() && #[trigger] required[p].has(i) implies implications::is_led(
        m,
        required[p],
        i,
    ) && preserve::exemptions_keep(m, store, modes, packages[p].name@, i) by {
        let s = required[p];
        assert(resolve::is_requirement(graph, resolver, store, m, packages, p, s));
        assert forall|k: int| #[trigger] s.has(k) implies k < m.names@.len() by {
            demands::law_workspace_asks_closed_criteria(
                graph,
                resolver,
                store.config,
                m,
                declared,
                packages,
                p,
                k,
            );
        }
        let j = implications::lemma_minimal_above(m, declared, s, i);
        let list = sorted_map::views_at(store.config.exemptions, packages[p].name@);
        assert forall|k: int| 0 <= k < list.len() implies preserve::is_rewritten(
            m,
            #[trigger] list[k],
            i,
        ) by {
            let t = criteria::criteria_of(m, list[k].criteria);
            if t.has(i) {
                assert forall|x: int| #[trigger] t.has(x) implies x < m.names@.len() by {
                    implications::lemma_criteria_known(m, list[k].criteria, x);
                }
                let h = implications::lemma_minimal_above(m, declared, t, i);
            }
        }
    }
}

/// Whether a report concludes from these requirements.
spec fn concludes_from(
    graph: PackageGraph,
    resolver: CargoResolverVersion,
    store: Store,
    r: ResolveReport,
    required: Seq<CriteriaSet>,
) -> bool {
    &&& resolve::are_requirements(
        graph,
        resolver,
        store,
        r.criteria_mapper,
        r.packages@,
        required,
    )
    &&& r.findings(store, required).wf()
    &&& r.findings(store, required).concludes(r.conclusion)
}

proof fn lemma_concludes(
    graph: PackageGraph,
    resolver: CargoResolverVersion,
    store: Store,
    r: ResolveReport,
) -> (required: Seq<CriteriaSet>)
    requires
        r.is_for(graph, resolver, store),
    ensures
        concludes_from(graph, resolver, store, r, required),
{
    choose|required: Seq<CriteriaSet>|
        resolve::are_requirements(
            graph,
            resolver,
            store,
            r.criteria_mapper,
            r.packages@,
            required,
        ) && (#[trigger] r.findings(store, required)).wf() && r.findings(
            store,
            required,
        ).concludes(r.conclusion)
}

/// What is required of a package does not depend on how packages are listed.
proof fn lemma_same_set(
    graph: PackageGraph,
    resolver: CargoResolverVersion,
    store: Store,
    m1: CriteriaMapper,
    m2: CriteriaMapper,
    packages1: Seq<Package>,
    packages2: Seq<Package>,
    p: int,
    q: int,
    s: CriteriaSet,
    t: CriteriaSet,
)
    requires
        agree(m1, m2),
        agree(m2, m1),
        package_graph::describes(packages1, graph),
        package_graph::describes(packages2, graph),
        0 <= p < packages1.len(),
        0 <= q < packages2.len(),
        packages1[p].id@ == packages2[q].id@,
        resolve::is_requirement(graph, resolver, store, m1, packages1, p, s),
        resolve::is_requirement(graph, resolver, store, m2, packages2, q, t),
    ensures
        s == t,
{
    let c = store.config;
    assert forall|i: int| #[trigger] s.has(i) == t.has(i) by {
        if s.has(i) {
            lemma_same_asked(graph, resolver, c, c, m1, m2, packages1, packages2, p, q, i);
        }
        if t.has(i) {
            lemma_same_asked(graph, resolver, c, c, m2, m1, packages2, packages1, q, p, i);
        }
    }
    CriteriaSet::lemma_ext(s, t);
}

proof fn lemma_exemptions_agree(
    a: CriteriaMapper,
    b: CriteriaMapper,
    store: Store,
    modes: UpdateModes,
    name: Seq<char>,
    i: int,
)
    requires
        agree(a, b),
        preserve::exemptions_keep(a, store, modes, name, i),
    ensures
        preserve::exemptions_keep(b, store, modes, name, i),
{
    let list = sorted_map::views_at(store.config.exemptions, name);
    assert forall|k: int| 0 <= k < list.len() implies modes.at(name).prune_exemptions && (
    #[trigger] list[k]).suggest || preserve::is_rewritten(b, list[k], i) by {
        let s = criteria::criteria_of(b, list[k].criteria);
        assert(criteria::criteria_of(a, list[k].criteria) == s);
        if s.has(i) && preserve::is_rewritten(a, list[k], i) {
            lemma_led_agree(a, b, s, i);
        }
    }
}

/// A package whose name does not fail in an update does not fail afterwards.
proof fn lemma_stays_vetted(
    graph: PackageGraph,
    resolver: CargoResolverVersion,
    before: Store,
    modes: UpdateModes,
    b: UpdateBasis,
    after: Store,
    r: ResolveReport,
    asked: Seq<CriteriaSet>,
    required: Seq<CriteriaSet>,
    p: int,
)
    requires
        b.holds(graph, resolver, before, modes),
        agree(r.criteria_mapper, b.mapper),
        agree(b.mapper, r.criteria_mapper),
        resolve::are_requirements(
            graph,
            resolver,
            before,
            r.criteria_mapper,
            r.packages@,
            asked,
        ),
        criteria_keep(r.criteria_mapper, before, modes, r.packages@, asked),
        preserve::is_updated(b.model(before, modes), after),
        after.config.root_policy == before.config.root_policy,
        after.config.policy == before.config.policy,
        r.is_for(graph, resolver, after),
        concludes_from(graph, resolver, after, r, required),
        0 <= p < r.packages@.len(),
        !b.model(before, modes).fails(r.packages@[p].name@),
    ensures
        !(r.findings(after, required).fails())(p),
{
    let m = r.criteria_mapper;
    let f = r.findings(after, required);
    if (f.fails())(p) {
        let package = r.packages@[p];
        let result = f.results[p]->0;
        let name = package.name@;
        assert(resolve::is_package_outcome(after, m, package, f.results[p]));
        let i = choose|i: int| result.fails(required[p], i);
        assert(resolve::is_requirement(graph, resolver, after, m, r.packages@, p, required[p]));
        assert(required[p].has(i));
        let q = lemma_find(graph, r.packages@, b.packages, p);
        lemma_same_asked(
            graph,
            resolver,
            after.config,
            before.config,
            m,
            b.mapper,
            r.packages@,
            b.packages,
            p,
            q,
            i,
        );
        assert(resolve::is_requirement(
            graph,
            resolver,
            before,
            b.mapper,
            b.packages,
            q,
            b.requirements[q],
        ));
        assert(b.requirements[q].has(i));
        lemma_same_set(
            graph,
            resolver,
            before,
            m,
            b.mapper,
            r.packages@,
            b.packages,
            p,
            q,
            asked[p],
            b.requirements[q],
        );
        assert(asked[p].has(i));
        lemma_led_agree(m, b.mapper, asked[p], i);
        assert forall|j: int| #[trigger] b.requirements[q].has(j) implies preserve::exemptions_keep(
            b.mapper,
            before,
            modes,
            name,
            j,
        ) by {
            assert(asked[p].has(j));
            lemma_exemptions_agree(m, b.mapper, before, modes, name, j);
        }
        preserve::law_update_keeps_vetting(
            graph,
            resolver,
            before,
            modes,
            b,
            after,
            q,
            i,
            SearchMode::PreferExemptions,
        );
        lemma_edges_agree(after, m, b.mapper, name);
        assert(audit_graph::is_search_result(
            audit_graph::store_edges(after, m, name, None),
            i,
            package.version@,
            SearchMode::PreferExemptions,
            result.search_results@[i],
        ));
    }
}

proof fn lemma_other_mode(s: Seq<EdgeView>, q: Query, other: Query, w: Seq<NodeView>, n: int)
    requires
        forall|v: Option<VetVersionView>| #[trigger]
            (q.edges)(v) == audit_graph::backward_from(s, v),
        forall|v: Option<VetVersionView>| #[trigger]
            (other.edges)(v) == audit_graph::backward_from(s, v),
        q.criteria_idx == other.criteria_idx,
        q.from == other.from,
        q.mode != SearchMode::RegenerateExemptions,
        q.is_walk(w),
        0 <= n < w.len(),
    ensures
        other.reachable(w[n].version),
    decreases n,
{
    if n == 0 {
        search::lemma_start_reachable(other);
    } else {
        lemma_other_mode(s, q, other, w, n - 1);
        assert(q.is_successor(w[n - 1], w[n - 1 + 1]));
        let a = w[n - 1];
        let b = w[n];
        let k = choose|k: int| q.follows(a, b, k);
        audit_graph::lemma_reach_step(other, a.version, k);
    }
}

/// What is vetted before an update does not fail in it.
proof fn lemma_vetted_before(
    graph: PackageGraph,
    resolver: CargoResolverVersion,
    before: Store,
    modes: UpdateModes,
    b: UpdateBasis,
    r: ResolveReport,
    name: Seq<char>,
)
    requires
        b.holds(graph, resolver, before, modes),
        agree(b.mapper, r.criteria_mapper),
        r.is_for(graph, resolver, before),
        r.conclusion is Success,
    ensures
        !b.model(before, modes).fails(name),
{
    let m = r.criteria_mapper;
    let required = lemma_concludes(graph, resolver, before, r);
    let f = r.findings(before, required);
    if b.model(before, modes).fails(name) {
        assert(update::is_required(
            before,
            b.mapper,
            b.packages,
            b.requirements,
            modes,
            name,
            b.required.get_spec(name),
        ));
        let d = Demand {
            store: before,
            mapper: b.mapper,
            packages: b.packages,
            requirements: b.requirements,
            name,
            mode: modes.at(name).search_mode,
        };
        assert(d.fails());
        let u = choose|u: int| d.is_user(u);
        if audit_graph::store_conflicts(before, b.mapper, name, None).len() > 0 {
            let x = lemma_find(graph, b.packages, r.packages@, u);
            lemma_conflicts_agree(before, b.mapper, m, name);
            assert((f.conflicts())(x));
        } else {
            let (q, i) = choose|q: int, i: int| #[trigger]
                d.needs(q, i) && !d.query(q, i).reachable(None);
            let p = lemma_find(graph, b.packages, r.packages@, q);
            let package = r.packages@[p];
            assert(resolve::is_requirement(
                graph,
                resolver,
                before,
                b.mapper,
                b.packages,
                q,
                b.requirements[q],
            ));
            lemma_same_asked(
                graph,
                resolver,
                before.config,
                before.config,
                b.mapper,
                m,
                b.packages,
                r.packages@,
                q,
                p,
                i,
            );
            assert(resolve::is_requirement(
                graph,
                resolver,
                before,
                m,
                r.packages@,
                p,
                required[p],
            ));
            assert(required[p].has(i));
            lemma_conflicts_agree(before, b.mapper, m, name);
            assert(resolve::is_package_outcome(before, m, package, f.results[p]));
            let result = f.results[p]->0;
            preserve::lemma_requirements_nameable(graph, resolver, before, modes, b);
            assert(demands::is_nameable(b.mapper, b.requirements[q]));
            assert(b.requirements[q].has(i));
            assert(text::texts(m.names@).len() == text::texts(b.mapper.names@).len());
            let s = audit_graph::store_edges(before, m, name, None);
            assert(audit_graph::is_search_result(
                s,
                i,
                package.version@,
                SearchMode::PreferExemptions,
                result.search_results@[i],
            ));
            assert(!(f.fails())(p));
            assert(!result.fails(required[p], i));
            lemma_edges_agree(before, b.mapper, m, name);
            let found = audit_graph::to_root(
                s,
                i,
                package.version@,
                SearchMode::PreferExemptions,
            );
            let w = choose|w: Seq<NodeView>| #[trigger]
                found.is_walk(w) && w.last().version is None;
            lemma_other_mode(s, found, d.query(q, i), w, w.len() - 1);
        }
    }
}

/// What an update rests on, and what it leaves.
proof fn lemma_basis(
    graph: PackageGraph,
    resolver: CargoResolverVersion,
    before: Store,
    modes: UpdateModes,
    u: StoreUpdates,
) -> (b: UpdateBasis)
    requires
        update::are_updates(graph, resolver, before, modes, u),
    ensures
        b.holds(graph, resolver, before, modes),
        preserve::is_updated(b.model(before, modes), u.applied(before).stored()),
{
    let after = u.applied(before).stored();
    assert(u == (StoreUpdates {
        audits: after.audits.audits,
        imports: after.imports,
        exemptions: after.config.exemptions,
    }));
    choose|b: UpdateBasis| #[trigger]
        b.holds(graph, resolver, before, modes) && b.model(before, modes).updates(u)
}

/// An update keeps success: if every package is vetted before, none fails to be
/// vetted with what the update leaves, and with nothing that was fetched and not
/// imported. Where nothing is a violation, the analysis of the updated store
/// succeeds. Left out is only that required criteria, or the criteria of an
/// exemption that hold a required one, imply each other with none above them: such
/// criteria are not written down.
pub proof fn law_update_keeps_success(
    graph: PackageGraph,
    resolver: CargoResolverVersion,
    before: Store,
    modes: UpdateModes,
    u: StoreUpdates,
    r0: ResolveReport,
    r: ResolveReport,
    asked: Seq<CriteriaSet>,
)
    requires
        r0.is_for(graph, resolver, before),
        r0.conclusion is Success,
        update::are_updates(graph, resolver, before, modes, u),
        r.is_for(graph, resolver, u.applied(before).stored()),
        resolve::are_requirements(
            graph,
            resolver,
            before,
            r.criteria_mapper,
            r.packages@,
            asked,
        ),
        criteria_keep(r.criteria_mapper, before, modes, r.packages@, asked),
    ensures
        !(r.conclusion is FailForVet),
        has_no_violations(before) ==> r.conclusion is Success,
{
    let after = u.applied(before).stored();
    let b = lemma_basis(graph, resolver, before, modes, u);
    let m = r.criteria_mapper;
    lemma_agree(m, b.mapper, before.audits.criteria);
    lemma_agree(b.mapper, m, before.audits.criteria);
    lemma_agree(b.mapper, r0.criteria_mapper, before.audits.criteria);
    let required = lemma_concludes(graph, resolver, after, r);
    let f = r.findings(after, required);
    assert forall|p: int| 0 <= p < r.packages@.len() implies !(#[trigger] (f.fails())(p)) by {
        lemma_vetted_before(graph, resolver, before, modes, b, r0, r.packages@[p].name@);
        lemma_stays_vetted(graph, resolver, before, modes, b, after, r, asked, required, p);
    }
    if has_no_violations(before) {
        lemma_update_free(b.model(before, modes), after);
        assert forall|p: int| 0 <= p < r.packages@.len() implies !(#[trigger] (f.conflicts())(
            p,
        )) by {
            lemma_no_conflicts(after, m, r.packages@[p].name@);
        }
    }
}

/// When exemptions are regenerated, and nothing is a violation, the analysis of
/// the updated store succeeds: every package is vetted with what the update
/// leaves, and with nothing that was fetched and not imported. Left out is only
/// that required criteria, or the criteria of an exemption that hold a required
/// one, imply each other with none above them: such criteria are not written down.
pub proof fn law_regenerating_succeeds(
    graph: PackageGraph,
    resolver: CargoResolverVersion,
    before: Store,
    modes: UpdateModes,
    u: StoreUpdates,
    r: ResolveReport,
    asked: Seq<CriteriaSet>,
)
    requires
        has_no_violations(before),
        forall|name: Seq<char>|
            (#[trigger] modes.at(name)).search_mode == SearchMode::RegenerateExemptions,
        update::are_updates(graph, resolver, before, modes, u),
        r.is_for(graph, resolver, u.applied(before).stored()),
        resolve::are_requirements(
            graph,
            resolver,
            before,
            r.criteria_mapper,
            r.packages@,
            asked,
        ),
        criteria_keep(r.criteria_mapper, before, modes, r.packages@, asked),
    ensures
        r.conclusion is Success,
{
    let after = u.applied(before).stored();
    let b = lemma_basis(graph, resolver, before, modes, u);
    let m = r.criteria_mapper;
    lemma_agree(m, b.mapper, before.audits.criteria);
    lemma_agree(b.mapper, m, before.audits.criteria);
    lemma_update_free(b.model(before, modes), after);
    let required = lemma_concludes(graph, resolver, after, r);
    let f = r.findings(after, required);
    assert forall|p: int| 0 <= p < r.packages@.len() implies !(#[trigger] (f.conflicts())(p)) by {
        lemma_no_conflicts(after, m, r.packages@[p].name@);
    }
    assert forall|p: int| 0 <= p < r.packages@.len() implies !(#[trigger] (f.fails())(p)) by {
        let name = r.packages@[p].name@;
        lemma_no_conflicts(before, b.mapper, name);
        assert(modes.at(name).search_mode == SearchMode::RegenerateExemptions);
        preserve::law_regenerating_vets(graph, resolver, before, modes, b, name);
        lemma_stays_vetted(graph, resolver, before, modes, b, after, r, asked, required, p);
    }
}

} // verus!
