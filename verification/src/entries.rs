//! Which entries of the store the edges of the audit graph come from.

use vstd::prelude::*;
use crate::audit_graph;
use crate::audit_graph::{AuditItem, EdgeView, SourceFile, WildcardItem};
use crate::criteria;
use crate::criteria::CriteriaMapper;
use crate::edges::{DeltaEdgeOriginView, SearchMode};
use crate::records::{CratesPublisherView, Store, TrustEntryView};
use crate::search;
use crate::search::{NodeView, Query};
use crate::sorted_map;
use crate::version::VetVersionView;

verus! {

/// Whether an edge between two versions counts for a criterion.
pub open spec fn provides(
    s: Seq<EdgeView>,
    from: Option<VetVersionView>,
    to: Option<VetVersionView>,
    i: int,
) -> bool {
    exists|n: int|
        0 <= n < s.len() && (#[trigger] s[n]).from == from && s[n].to == to && s[n].criteria.has(i)
}

/// Every audit that is no violation has an edge.
pub proof fn lemma_audit_edges_has(m: CriteriaMapper, items: Seq<AuditItem>, k: int) -> (n: int)
    requires
        0 <= k < items.len(),
        !(items[k].entry.kind is Violation),
    ensures
        0 <= n < audit_graph::audit_edges(m, items).len(),
        audit_graph::audit_edges(m, items)[n] == audit_graph::audit_edge(m, items[k]),
    decreases items.len(),
{
    if k == items.len() - 1 {
        audit_graph::audit_edges(m, items).len() - 1
    } else {
        lemma_audit_edges_has(m, items.drop_last(), k)
    }
}

/// Every edge of an audit comes from one that is no violation.
pub proof fn lemma_audit_edges_from(m: CriteriaMapper, items: Seq<AuditItem>, n: int) -> (k: int)
    requires
        0 <= n < audit_graph::audit_edges(m, items).len(),
    ensures
        0 <= k < items.len(),
        !(items[k].entry.kind is Violation),
        audit_graph::audit_edges(m, items)[n] == audit_graph::audit_edge(m, items[k]),
    decreases items.len(),
{
    if !(items.last().entry.kind is Violation) && n == audit_graph::audit_edges(m, items).len()
        - 1 {
        items.len() - 1
    } else {
        lemma_audit_edges_from(m, items.drop_last(), n)
    }
}

/// The audits of each file are among all audits.
pub proof fn lemma_all_audits_has(files: Seq<SourceFile>, name: Seq<char>, f: int, j: int) -> (n: int)
    requires
        0 <= f < files.len(),
        0 <= j < audit_graph::file_audits(files[f], name).len(),
    ensures
        0 <= n < audit_graph::all_audits(files, name).len(),
        audit_graph::all_audits(files, name)[n] == audit_graph::file_audits(files[f], name)[j],
    decreases files.len(),
{
    let rest = audit_graph::all_audits(files.drop_last(), name);
    if f == files.len() - 1 {
        rest.len() + j
    } else {
        lemma_all_audits_has(files.drop_last(), name, f, j)
    }
}

/// Every audit is in one of the files.
pub proof fn lemma_all_audits_from(files: Seq<SourceFile>, name: Seq<char>, n: int) -> (r: (int, int))
    requires
        0 <= n < audit_graph::all_audits(files, name).len(),
    ensures
        0 <= r.0 < files.len(),
        0 <= r.1 < audit_graph::file_audits(files[r.0], name).len(),
        audit_graph::all_audits(files, name)[n] == audit_graph::file_audits(files[r.0], name)[r.1],
    decreases files.len(),
{
    let rest = audit_graph::all_audits(files.drop_last(), name);
    if n >= rest.len() {
        (files.len() - 1, n - rest.len())
    } else {
        lemma_all_audits_from(files.drop_last(), name, n)
    }
}

/// The wildcard audits of each file are among all of them.
pub proof fn lemma_all_wildcards_has(files: Seq<SourceFile>, name: Seq<char>, f: int, j: int) -> (n: int)
    requires
        0 <= f < files.len(),
        0 <= j < audit_graph::file_wildcards(files[f], name).len(),
    ensures
        0 <= n < audit_graph::all_wildcards(files, name).len(),
        audit_graph::all_wildcards(files, name)[n] == audit_graph::file_wildcards(
            files[f],
            name,
        )[j],
    decreases files.len(),
{
    let rest = audit_graph::all_wildcards(files.drop_last(), name);
    if f == files.len() - 1 {
        rest.len() + j
    } else {
        lemma_all_wildcards_has(files.drop_last(), name, f, j)
    }
}

/// Every wildcard audit is in one of the files.
pub proof fn lemma_all_wildcards_from(files: Seq<SourceFile>, name: Seq<char>, n: int) -> (r: (int, int))
    requires
        0 <= n < audit_graph::all_wildcards(files, name).len(),
    ensures
        0 <= r.0 < files.len(),
        0 <= r.1 < audit_graph::file_wildcards(files[r.0], name).len(),
        audit_graph::all_wildcards(files, name)[n] == audit_graph::file_wildcards(
            files[r.0],
            name,
        )[r.1],
    decreases files.len(),
{
    let rest = audit_graph::all_wildcards(files.drop_last(), name);
    if n >= rest.len() {
        (files.len() - 1, n - rest.len())
    } else {
        lemma_all_wildcards_from(files.drop_last(), name, n)
    }
}

/// Whether an edge comes from a release and what covers it.
pub open spec fn is_release_edge(
    m: CriteriaMapper,
    releases: Seq<CratesPublisherView>,
    items: Seq<WildcardItem>,
    trusted: Seq<TrustEntryView>,
    p: int,
    e: EdgeView,
) -> bool {
    &&& 0 <= p < releases.len()
    &&& e.from is None
    &&& e.to == Some(releases[p].version)
    &&& ((exists|k: int|
        0 <= k < items.len() && is_wildcard_edge(m, releases[p], p, #[trigger] items[k], e))
        || (exists|k: int|
        0 <= k < trusted.len() && is_trusted_edge(m, releases[p], p, #[trigger] trusted[k], e)))
}

/// Whether an edge comes from a wildcard audit that covers a release.
pub open spec fn is_wildcard_edge(
    m: CriteriaMapper,
    release: CratesPublisherView,
    p: int,
    item: WildcardItem,
    e: EdgeView,
) -> bool {
    &&& audit_graph::covers_release(item.entry.source, item.entry.start, item.entry.end, release)
    &&& e.criteria == criteria::criteria_of(m, item.entry.criteria)
    &&& e.origin == DeltaEdgeOriginView::WildcardAudit {
        import_index: item.import_index,
        audit_index: item.audit_index,
        publisher_index: p as usize,
    }
}

/// Whether an edge comes from a trusted source that covers a release.
pub open spec fn is_trusted_edge(
    m: CriteriaMapper,
    release: CratesPublisherView,
    p: int,
    entry: TrustEntryView,
    e: EdgeView,
) -> bool {
    &&& audit_graph::covers_release(entry.source, entry.start, entry.end, release)
    &&& e.criteria == criteria::criteria_of(m, entry.criteria)
    &&& e.origin == DeltaEdgeOriginView::Trusted { publisher_index: p as usize }
}

/// Every edge of a wildcard audit comes from one that covers the release.
proof fn lemma_wildcard_edges_from(
    m: CriteriaMapper,
    p: usize,
    release: CratesPublisherView,
    items: Seq<WildcardItem>,
    n: int,
) -> (k: int)
    requires
        0 <= n < audit_graph::wildcard_edges(m, p, release, items).len(),
    ensures
        0 <= k < items.len(),
        is_wildcard_edge(
            m,
            release,
            p as int,
            items[k],
            audit_graph::wildcard_edges(m, p, release, items)[n],
        ),
        audit_graph::wildcard_edges(m, p, release, items)[n].from is None,
        audit_graph::wildcard_edges(m, p, release, items)[n].to == Some(release.version),
    decreases items.len(),
{
    let all = audit_graph::wildcard_edges(m, p, release, items);
    let rest = audit_graph::wildcard_edges(m, p, release, items.drop_last());
    if n < rest.len() {
        assert(all[n] == rest[n]);
        lemma_wildcard_edges_from(m, p, release, items.drop_last(), n)
    } else {
        items.len() - 1
    }
}

/// Every wildcard audit that covers a release has an edge.
proof fn lemma_wildcard_edges_has(
    m: CriteriaMapper,
    p: usize,
    release: CratesPublisherView,
    items: Seq<WildcardItem>,
    k: int,
) -> (n: int)
    requires
        0 <= k < items.len(),
        audit_graph::covers_release(
            items[k].entry.source,
            items[k].entry.start,
            items[k].entry.end,
            release,
        ),
    ensures
        0 <= n < audit_graph::wildcard_edges(m, p, release, items).len(),
        audit_graph::wildcard_edges(m, p, release, items)[n].from is None,
        audit_graph::wildcard_edges(m, p, release, items)[n].to == Some(release.version),
        audit_graph::wildcard_edges(m, p, release, items)[n].criteria == criteria::criteria_of(
            m,
            items[k].entry.criteria,
        ),
    decreases items.len(),
{
    if k == items.len() - 1 {
        audit_graph::wildcard_edges(m, p, release, items).len() - 1
    } else {
        lemma_wildcard_edges_has(m, p, release, items.drop_last(), k)
    }
}

/// Every edge of a trusted source comes from one that covers the release.
proof fn lemma_trusted_edges_from(
    m: CriteriaMapper,
    p: usize,
    release: CratesPublisherView,
    trusted: Seq<TrustEntryView>,
    n: int,
) -> (k: int)
    requires
        0 <= n < audit_graph::trusted_edges(m, p, release, trusted).len(),
    ensures
        0 <= k < trusted.len(),
        is_trusted_edge(
            m,
            release,
            p as int,
            trusted[k],
            audit_graph::trusted_edges(m, p, release, trusted)[n],
        ),
        audit_graph::trusted_edges(m, p, release, trusted)[n].from is None,
        audit_graph::trusted_edges(m, p, release, trusted)[n].to == Some(release.version),
    decreases trusted.len(),
{
    let all = audit_graph::trusted_edges(m, p, release, trusted);
    let rest = audit_graph::trusted_edges(m, p, release, trusted.drop_last());
    if n < rest.len() {
        assert(all[n] == rest[n]);
        lemma_trusted_edges_from(m, p, release, trusted.drop_last(), n)
    } else {
        trusted.len() - 1
    }
}

/// Every trusted source that covers a release has an edge.
proof fn lemma_trusted_edges_has(
    m: CriteriaMapper,
    p: usize,
    release: CratesPublisherView,
    trusted: Seq<TrustEntryView>,
    k: int,
) -> (n: int)
    requires
        0 <= k < trusted.len(),
        audit_graph::covers_release(trusted[k].source, trusted[k].start, trusted[k].end, release),
    ensures
        0 <= n < audit_graph::trusted_edges(m, p, release, trusted).len(),
        audit_graph::trusted_edges(m, p, release, trusted)[n].from is None,
        audit_graph::trusted_edges(m, p, release, trusted)[n].to == Some(release.version),
        audit_graph::trusted_edges(m, p, release, trusted)[n].criteria == criteria::criteria_of(
            m,
            trusted[k].criteria,
        ),
    decreases trusted.len(),
{
    if k == trusted.len() - 1 {
        audit_graph::trusted_edges(m, p, release, trusted).len() - 1
    } else {
        lemma_trusted_edges_has(m, p, release, trusted.drop_last(), k)
    }
}

/// Every edge of a release comes from something that covers it.
pub proof fn lemma_release_edges_from(
    m: CriteriaMapper,
    releases: Seq<CratesPublisherView>,
    items: Seq<WildcardItem>,
    trusted: Seq<TrustEntryView>,
    n: int,
) -> (p: int)
    requires
        releases.len() <= usize::MAX,
        0 <= n < audit_graph::release_edges(m, releases, items, trusted).len(),
    ensures
        is_release_edge(
            m,
            releases,
            items,
            trusted,
            p,
            audit_graph::release_edges(m, releases, items, trusted)[n],
        ),
    decreases releases.len(),
{
    let before = releases.drop_last();
    let i = (releases.len() - 1) as usize;
    let rest = audit_graph::release_edges(m, before, items, trusted);
    let w = audit_graph::wildcard_edges(m, i, releases.last(), items);
    let t = audit_graph::trusted_edges(m, i, releases.last(), trusted);
    let all = audit_graph::release_edges(m, releases, items, trusted);
    if n < rest.len() {
        assert(all[n] == rest[n]);
        let p = lemma_release_edges_from(m, before, items, trusted, n);
        assert(before[p] == releases[p]);
        p
    } else if n < rest.len() + w.len() {
        assert(all[n] == w[n - rest.len()]);
        let k = lemma_wildcard_edges_from(m, i, releases.last(), items, n - rest.len());
        assert(is_wildcard_edge(m, releases[i as int], i as int, items[k], all[n]));
        i as int
    } else {
        assert(all[n] == t[n - rest.len() - w.len()]);
        let k = lemma_trusted_edges_from(
            m,
            i,
            releases.last(),
            trusted,
            n - rest.len() - w.len(),
        );
        assert(is_trusted_edge(m, releases[i as int], i as int, trusted[k], all[n]));
        i as int
    }
}

/// A wildcard audit that covers a release provides its criteria.
pub proof fn lemma_release_wildcard_has(
    m: CriteriaMapper,
    releases: Seq<CratesPublisherView>,
    items: Seq<WildcardItem>,
    trusted: Seq<TrustEntryView>,
    p: int,
    k: int,
    i: int,
)
    requires
        0 <= p < releases.len(),
        0 <= k < items.len(),
        audit_graph::covers_release(
            items[k].entry.source,
            items[k].entry.start,
            items[k].entry.end,
            releases[p],
        ),
        criteria::criteria_of(m, items[k].entry.criteria).has(i),
    ensures
        provides(
            audit_graph::release_edges(m, releases, items, trusted),
            None,
            Some(releases[p].version),
            i,
        ),
    decreases releases.len(),
{
    let before = releases.drop_last();
    let x = (releases.len() - 1) as usize;
    let rest = audit_graph::release_edges(m, before, items, trusted);
    let all = audit_graph::release_edges(m, releases, items, trusted);
    if p == releases.len() - 1 {
        let n = lemma_wildcard_edges_has(m, x, releases.last(), items, k);
        let w = audit_graph::wildcard_edges(m, x, releases.last(), items);
        assert(all[rest.len() + n] == w[n]);
    } else {
        lemma_release_wildcard_has(m, before, items, trusted, p, k, i);
        let n = choose|n: int|
            0 <= n < rest.len() && (#[trigger] rest[n]).from is None && rest[n].to == Some(
                releases[p].version,
            ) && rest[n].criteria.has(i);
        assert(all[n] == rest[n]);
    }
}

/// A trusted source that covers a release provides its criteria.
pub proof fn lemma_release_trusted_has(
    m: CriteriaMapper,
    releases: Seq<CratesPublisherView>,
    items: Seq<WildcardItem>,
    trusted: Seq<TrustEntryView>,
    p: int,
    k: int,
    i: int,
)
    requires
        0 <= p < releases.len(),
        0 <= k < trusted.len(),
        audit_graph::covers_release(
            trusted[k].source,
            trusted[k].start,
            trusted[k].end,
            releases[p],
        ),
        criteria::criteria_of(m, trusted[k].criteria).has(i),
    ensures
        provides(
            audit_graph::release_edges(m, releases, items, trusted),
            None,
            Some(releases[p].version),
            i,
        ),
    decreases releases.len(),
{
    let before = releases.drop_last();
    let x = (releases.len() - 1) as usize;
    let rest = audit_graph::release_edges(m, before, items, trusted);
    let all = audit_graph::release_edges(m, releases, items, trusted);
    if p == releases.len() - 1 {
        let n = lemma_trusted_edges_has(m, x, releases.last(), trusted, k);
        let w = audit_graph::wildcard_edges(m, x, releases.last(), items);
        let t = audit_graph::trusted_edges(m, x, releases.last(), trusted);
        assert(all[rest.len() + w.len() + n] == t[n]);
    } else {
        lemma_release_trusted_has(m, before, items, trusted, p, k, i);
        let n = choose|n: int|
            0 <= n < rest.len() && (#[trigger] rest[n]).from is None && rest[n].to == Some(
                releases[p].version,
            ) && rest[n].criteria.has(i);
        assert(all[n] == rest[n]);
    }
}

/// Whether what an edge stands for is an entry of the store.
pub open spec fn is_entry(store: Store, name: Seq<char>, origin: DeltaEdgeOriginView) -> bool {
    let live = store.live();
    match origin {
        DeltaEdgeOriginView::StoredLocalAudit { audit_index, importable } => {
            let list = sorted_map::views_at(store.audits.audits, name);
            audit_index < list.len() && importable == list[audit_index as int].importable
        },
        DeltaEdgeOriginView::ImportedAudit { import_index, audit_index } => import_index
            < live.audits.entries().len() && audit_index < sorted_map::views_at(
            live.audits.entries()[import_index as int].1.audits,
            name,
        ).len(),
        DeltaEdgeOriginView::WildcardAudit { import_index, audit_index, publisher_index } => {
            let file = match import_index {
                Some(f) => live.audits.entries()[f as int].1,
                None => store.audits,
            };
            (import_index is Some ==> import_index->0 < live.audits.entries().len()) && audit_index
                < sorted_map::views_at(file.wildcard_audits, name).len() && publisher_index
                < sorted_map::views_at(live.publisher, name).len()
        },
        DeltaEdgeOriginView::Trusted { publisher_index } => publisher_index
            < sorted_map::views_at(live.publisher, name).len(),
        DeltaEdgeOriginView::Exemption { exemption_index } => exemption_index
            < sorted_map::views_at(store.config.exemptions, name).len(),
        DeltaEdgeOriginView::Unpublished { unpublished_index } => unpublished_index
            < sorted_map::views_at(live.unpublished, name).len(),
        DeltaEdgeOriginView::FreshExemption { .. } => false,
    }
}

/// Every edge of the audit graph stands for an entry of the store.
pub proof fn law_edges_are_entries(store: Store, m: CriteriaMapper, name: Seq<char>, n: int)
    requires
        0 <= n < audit_graph::store_edges(store, m, name, None).len(),
    ensures
        is_entry(store, name, audit_graph::store_edges(store, m, name, None)[n].origin),
{
    let files = audit_graph::source_files(store, None);
    let items = audit_graph::all_audits(files, name);
    let releases = sorted_map::views_at(store.live().publisher, name);
    let wildcards = audit_graph::all_wildcards(files, name);
    let trusted = sorted_map::views_at(store.audits.trusted, name);
    let unpublished = sorted_map::views_at(store.live().unpublished, name);
    let exemptions = sorted_map::views_at(store.config.exemptions, name);
    let a1 = audit_graph::audit_edges(m, items);
    let a2 = audit_graph::release_edges(m, releases, wildcards, trusted);
    let all = audit_graph::store_edges(store, m, name, None);
    let n2 = n - a1.len();
    let n3 = n2 - a2.len();
    let n4 = n3 - unpublished.len();
    store.live().audits.lemma_fits();
    if n < a1.len() {
        assert(all[n] == a1[n]);
        let k = lemma_audit_edges_from(m, items, n);
        let (f, j) = lemma_all_audits_from(files, name, k);
        sorted_map::lemma_list_fits(files[f].file.audits, name);
    } else if n2 < a2.len() {
        assert(all[n] == a2[n2]);
        sorted_map::lemma_list_fits(store.live().publisher, name);
        let e = a2[n2];
        let p = lemma_release_edges_from(m, releases, wildcards, trusted, n2);
        if exists|k: int|
            0 <= k < wildcards.len() && is_wildcard_edge(
                m,
                releases[p],
                p,
                #[trigger] wildcards[k],
                e,
            ) {
            let k = choose|k: int|
                0 <= k < wildcards.len() && is_wildcard_edge(
                    m,
                    releases[p],
                    p,
                    #[trigger] wildcards[k],
                    e,
                );
            let (f, j) = lemma_all_wildcards_from(files, name, k);
            sorted_map::lemma_list_fits(files[f].file.wildcard_audits, name);
        }
    } else if n3 < unpublished.len() {
        sorted_map::lemma_list_fits(store.live().unpublished, name);
    } else {
        sorted_map::lemma_list_fits(store.config.exemptions, name);
    }
}

/// Whether something on a path is a fresh exemption, or else an entry.
spec fn is_step(store: Store, name: Seq<char>, mode: SearchMode, origin: DeltaEdgeOriginView) -> bool {
    is_entry(store, name, origin) || mode == SearchMode::RegenerateExemptions
        && origin is FreshExemption
}

proof fn lemma_walk_entries(
    store: Store,
    m: CriteriaMapper,
    name: Seq<char>,
    q: Query,
    w: Seq<NodeView>,
    n: int,
)
    requires
        forall|v: Option<VetVersionView>| #[trigger]
            (q.edges)(v) == audit_graph::backward_from(
                audit_graph::store_edges(store, m, name, None),
                v,
            ),
        q.is_walk(w),
        0 <= n < w.len(),
    ensures
        forall|j: int|
            0 <= j < w[n].path.len() ==> is_step(store, name, q.mode, #[trigger] w[n].path[j]),
    decreases n,
{
    if n > 0 {
        lemma_walk_entries(store, m, name, q, w, n - 1);
        let s = audit_graph::store_edges(store, m, name, None);
        let a = w[n - 1];
        let b = w[n];
        assert(q.is_successor(w[n - 1], w[n - 1 + 1]));
        assert(is_step(store, name, q.mode, b.path.last())) by {
            if exists|k: int| q.follows(a, b, k) {
                let k = choose|k: int| q.follows(a, b, k);
                let x = audit_graph::lemma_backward_member(s, a.version, k);
                law_edges_are_entries(store, m, name, x);
            }
        }
        assert forall|j: int| 0 <= j < b.path.len() implies is_step(
            store,
            name,
            q.mode,
            #[trigger] b.path[j],
        ) by {
            if j < a.path.len() {
                assert(b.path[j] == a.path[j]);
            }
        }
    }
}

/// Everything on a path that a search finds is an entry of the store, or a fresh
/// exemption if exemptions are regenerated.
pub proof fn law_paths_consist_of_entries(
    store: Store,
    m: CriteriaMapper,
    name: Seq<char>,
    criteria_idx: int,
    version: VetVersionView,
    mode: SearchMode,
    path: Seq<DeltaEdgeOriginView>,
    j: int,
)
    requires
        audit_graph::to_root(
            audit_graph::store_edges(store, m, name, None),
            criteria_idx,
            version,
            mode,
        ).can_find(path),
        0 <= j < path.len(),
    ensures
        is_entry(store, name, path[j]) || mode == SearchMode::RegenerateExemptions
            && path[j] is FreshExemption,
{
    let q = audit_graph::to_root(
        audit_graph::store_edges(store, m, name, None),
        criteria_idx,
        version,
        mode,
    );
    search::law_found_path_is_a_walk(q, path);
    let w = choose|w: Seq<NodeView>| #[trigger]
        q.is_walk(w) && w.last().version == q.to && w.last().path == path;
    lemma_walk_entries(store, m, name, q, w, w.len() - 1);
    assert(is_step(store, name, mode, w[w.len() - 1].path[j]));
}

} // verus!
