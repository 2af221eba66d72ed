//! What a package can be vetted with.

use vstd::prelude::*;
use crate::audit_graph;
use crate::audit_graph::{EdgeView, WildcardItem};
use crate::conflicts;
use crate::criteria;
use crate::criteria::CriteriaMapper;
use crate::demands;
use crate::edges::{DeltaEdgeFreshness, DeltaEdgeOriginView};
use crate::entries;
use crate::records::{
    AuditEntryView, AuditKindView, AuditsFile, CratesPublisherView, Store, TrustEntryView,
};
use crate::sorted_map;

verus! {

/// Whether an edge is that of an audit, which is no violation.
pub open spec fn is_audit_step(m: CriteriaMapper, audit: AuditEntryView, e: EdgeView) -> bool {
    &&& match audit.kind {
        AuditKindView::Full { version } => e.from is None && e.to == Some(version),
        AuditKindView::Delta { from, to } => e.from == Some(from) && e.to == Some(to),
        AuditKindView::Violation { .. } => false,
    }
    &&& e.criteria == criteria::criteria_of(m, audit.criteria)
    &&& e.freshness == if audit.is_fresh_import {
        DeltaEdgeFreshness::Fresh
    } else {
        DeltaEdgeFreshness::Stale
    }
}

/// Whether an edge is that of an audit of a file of the project.
pub open spec fn is_own_audit(
    file: AuditsFile,
    m: CriteriaMapper,
    name: Seq<char>,
    k: usize,
    importable: bool,
    e: EdgeView,
) -> bool {
    let list = sorted_map::views_at(file.audits, name);
    k < list.len() && list[k as int].importable == importable && is_audit_step(
        m,
        list[k as int],
        e,
    )
}

/// Whether a wildcard audit of a file covers a release: the release is by its
/// source, not before its start, and before its end.
pub open spec fn is_wildcard_step(
    file: AuditsFile,
    m: CriteriaMapper,
    name: Seq<char>,
    k: usize,
    release: CratesPublisherView,
    e: EdgeView,
) -> bool {
    let list = sorted_map::views_at(file.wildcard_audits, name);
    let audit = list[k as int];
    &&& k < list.len()
    &&& audit.source == release.source && audit.start <= release.when && release.when < audit.end
    &&& e.criteria == criteria::criteria_of(m, audit.criteria)
    &&& e.freshness == if audit.is_fresh_import {
        DeltaEdgeFreshness::Fresh
    } else if release.is_fresh_import {
        DeltaEdgeFreshness::FreshPublisher
    } else {
        DeltaEdgeFreshness::Stale
    }
}

/// Whether an entry of the store backs an edge, as the origin of the edge says.
pub open spec fn is_backed(
    store: Store,
    extra: Option<AuditsFile>,
    m: CriteriaMapper,
    name: Seq<char>,
    e: EdgeView,
) -> bool {
    let imports = conflicts::imports_of(store);
    let releases = sorted_map::views_at(imports.publisher, name);
    match e.origin {
        DeltaEdgeOriginView::StoredLocalAudit { audit_index, importable } => {
            ||| is_own_audit(store.audits, m, name, audit_index, importable, e)
            ||| extra matches Some(file) && is_own_audit(file, m, name, audit_index, importable, e)
        },
        DeltaEdgeOriginView::ImportedAudit { import_index, audit_index } => {
            let list = sorted_map::views_at(
                imports.audits.entries()[import_index as int].1.audits,
                name,
            );
            import_index < imports.audits.entries().len() && audit_index < list.len()
                && is_audit_step(m, list[audit_index as int], e)
        },
        DeltaEdgeOriginView::WildcardAudit { import_index, audit_index, publisher_index } => {
            let release = releases[publisher_index as int];
            &&& publisher_index < releases.len()
            &&& e.from is None && e.to == Some(release.version)
            &&& match import_index {
                Some(f) => f < imports.audits.entries().len() && is_wildcard_step(
                    imports.audits.entries()[f as int].1,
                    m,
                    name,
                    audit_index,
                    release,
                    e,
                ),
                None => is_wildcard_step(store.audits, m, name, audit_index, release, e) || (
                extra matches Some(file) && is_wildcard_step(
                    file,
                    m,
                    name,
                    audit_index,
                    release,
                    e,
                )),
            }
        },
        DeltaEdgeOriginView::Trusted { publisher_index } => {
            let release = releases[publisher_index as int];
            let trusted = sorted_map::views_at(store.audits.trusted, name);
            &&& publisher_index < releases.len()
            &&& e.from is None && e.to == Some(release.version)
            &&& e.freshness == if release.is_fresh_import {
                DeltaEdgeFreshness::Fresh
            } else {
                DeltaEdgeFreshness::Stale
            }
            &&& exists|k: int|
                0 <= k < trusted.len() && (#[trigger] trusted[k]).source == release.source
                    && trusted[k].start <= release.when && release.when < trusted[k].end
                    && e.criteria == criteria::criteria_of(m, trusted[k].criteria)
        },
        DeltaEdgeOriginView::Exemption { exemption_index } => {
            let list = sorted_map::views_at(store.config.exemptions, name);
            let exemption = list[exemption_index as int];
            &&& exemption_index < list.len()
            &&& e.from is None && e.to == Some(exemption.version)
            &&& e.criteria == criteria::criteria_of(m, exemption.criteria)
            &&& e.freshness == DeltaEdgeFreshness::Stale
        },
        DeltaEdgeOriginView::Unpublished { unpublished_index } => {
            let list = sorted_map::views_at(imports.unpublished, name);
            let entry = list[unpublished_index as int];
            &&& unpublished_index < list.len()
            &&& e.from == Some(entry.audited_as) && e.to == Some(entry.version)
            &&& forall|i: int| #[trigger] e.criteria.has(i) <==> 0 <= i < m.names@.len()
            &&& e.freshness == if entry.is_fresh_import {
                DeltaEdgeFreshness::Fresh
            } else {
                DeltaEdgeFreshness::Stale
            }
        },
        DeltaEdgeOriginView::FreshExemption { .. } => false,
    }
}

/// The edge by which a wildcard audit covers a release.
spec fn wildcard_edge(
    m: CriteriaMapper,
    p: usize,
    release: CratesPublisherView,
    item: WildcardItem,
) -> EdgeView {
    EdgeView {
        from: None,
        to: Some(release.version),
        criteria: criteria::criteria_of(m, item.entry.criteria),
        origin: DeltaEdgeOriginView::WildcardAudit {
            import_index: item.import_index,
            audit_index: item.audit_index,
            publisher_index: p,
        },
        freshness: if item.entry.is_fresh_import {
            DeltaEdgeFreshness::Fresh
        } else if release.is_fresh_import {
            DeltaEdgeFreshness::FreshPublisher
        } else {
            DeltaEdgeFreshness::Stale
        },
    }
}

/// The edge by which a trusted source covers a release.
spec fn trusted_edge(
    m: CriteriaMapper,
    p: usize,
    release: CratesPublisherView,
    entry: TrustEntryView,
) -> EdgeView {
    EdgeView {
        from: None,
        to: Some(release.version),
        criteria: criteria::criteria_of(m, entry.criteria),
        origin: DeltaEdgeOriginView::Trusted { publisher_index: p },
        freshness: if release.is_fresh_import {
            DeltaEdgeFreshness::Fresh
        } else {
            DeltaEdgeFreshness::Stale
        },
    }
}

spec fn covers_by_wildcard(release: CratesPublisherView, item: WildcardItem) -> bool {
    item.entry.source == release.source && item.entry.start <= release.when && release.when
        < item.entry.end
}

spec fn covers_by_trust(release: CratesPublisherView, entry: TrustEntryView) -> bool {
    entry.source == release.source && entry.start <= release.when && release.when < entry.end
}

proof fn lemma_wildcards(
    m: CriteriaMapper,
    p: usize,
    release: CratesPublisherView,
    items: Seq<WildcardItem>,
    e: EdgeView,
)
    ensures
        audit_graph::wildcard_edges(m, p, release, items).contains(e) <==> exists|k: int|
            0 <= k < items.len() && covers_by_wildcard(release, #[trigger] items[k]) && e
                == wildcard_edge(m, p, release, items[k]),
    decreases items.len(),
{
    let all = audit_graph::wildcard_edges(m, p, release, items);
    if items.len() > 0 {
        let front = items.drop_last();
        let rest = audit_graph::wildcard_edges(m, p, release, front);
        lemma_wildcards(m, p, release, front, e);
        if all.contains(e) {
            let n = choose|n: int| 0 <= n < all.len() && all[n] == e;
            if n < rest.len() {
                assert(rest[n] == e);
                assert(rest.contains(e));
                let k = choose|k: int|
                    0 <= k < front.len() && covers_by_wildcard(release, #[trigger] front[k]) && e
                        == wildcard_edge(m, p, release, front[k]);
                assert(items[k] == front[k]);
            } else {
                let k = items.len() - 1;
                assert(covers_by_wildcard(release, items[k]));
            }
        }
        if exists|k: int|
            0 <= k < items.len() && covers_by_wildcard(release, #[trigger] items[k]) && e
                == wildcard_edge(m, p, release, items[k]) {
            let k = choose|k: int|
                0 <= k < items.len() && covers_by_wildcard(release, #[trigger] items[k]) && e
                    == wildcard_edge(m, p, release, items[k]);
            if k < front.len() {
                assert(front[k] == items[k]);
                assert(rest.contains(e));
                let n = choose|n: int| 0 <= n < rest.len() && rest[n] == e;
                assert(all[n] == e);
            } else {
                assert(all[all.len() - 1] == e);
            }
        }
    }
}

proof fn lemma_trusted(
    m: CriteriaMapper,
    p: usize,
    release: CratesPublisherView,
    trusted: Seq<TrustEntryView>,
    e: EdgeView,
)
    ensures
        audit_graph::trusted_edges(m, p, release, trusted).contains(e) <==> exists|k: int|
            0 <= k < trusted.len() && covers_by_trust(release, #[trigger] trusted[k]) && e
                == trusted_edge(m, p, release, trusted[k]),
    decreases trusted.len(),
{
    let all = audit_graph::trusted_edges(m, p, release, trusted);
    if trusted.len() > 0 {
        let front = trusted.drop_last();
        let rest = audit_graph::trusted_edges(m, p, release, front);
        lemma_trusted(m, p, release, front, e);
        if all.contains(e) {
            let n = choose|n: int| 0 <= n < all.len() && all[n] == e;
            if n < rest.len() {
                assert(rest[n] == e);
                assert(rest.contains(e));
                let k = choose|k: int|
                    0 <= k < front.len() && covers_by_trust(release, #[trigger] front[k]) && e
                        == trusted_edge(m, p, release, front[k]);
                assert(trusted[k] == front[k]);
            } else {
                let k = trusted.len() - 1;
                assert(covers_by_trust(release, trusted[k]));
            }
        }
        if exists|k: int|
            0 <= k < trusted.len() && covers_by_trust(release, #[trigger] trusted[k]) && e
                == trusted_edge(m, p, release, trusted[k]) {
            let k = choose|k: int|
                0 <= k < trusted.len() && covers_by_trust(release, #[trigger] trusted[k]) && e
                    == trusted_edge(m, p, release, trusted[k]);
            if k < front.len() {
                assert(front[k] == trusted[k]);
                assert(rest.contains(e));
                let n = choose|n: int| 0 <= n < rest.len() && rest[n] == e;
                assert(all[n] == e);
            } else {
                assert(all[all.len() - 1] == e);
            }
        }
    }
}

/// Whether an edge is one of a release.
spec fn is_release_step(
    m: CriteriaMapper,
    p: int,
    release: CratesPublisherView,
    items: Seq<WildcardItem>,
    trusted: Seq<TrustEntryView>,
    e: EdgeView,
) -> bool {
    ||| exists|k: int|
        0 <= k < items.len() && covers_by_wildcard(release, #[trigger] items[k]) && e
            == wildcard_edge(m, p as usize, release, items[k])
    ||| exists|k: int|
        0 <= k < trusted.len() && covers_by_trust(release, #[trigger] trusted[k]) && e
            == trusted_edge(m, p as usize, release, trusted[k])
}

proof fn lemma_releases(
    m: CriteriaMapper,
    releases: Seq<CratesPublisherView>,
    items: Seq<WildcardItem>,
    trusted: Seq<TrustEntryView>,
    e: EdgeView,
)
    ensures
        audit_graph::release_edges(m, releases, items, trusted).contains(e) <==> exists|p: int|
            0 <= p < releases.len() && is_release_step(
                m,
                p,
                #[trigger] releases[p],
                items,
                trusted,
                e,
            ),
    decreases releases.len(),
{
    let all = audit_graph::release_edges(m, releases, items, trusted);
    if releases.len() > 0 {
        let front = releases.drop_last();
        let rest = audit_graph::release_edges(m, front, items, trusted);
        let last = releases.len() - 1;
        let r = releases.last();
        let x = audit_graph::wildcard_edges(m, last as usize, r, items);
        let y = audit_graph::trusted_edges(m, last as usize, r, trusted);
        lemma_releases(m, front, items, trusted, e);
        lemma_wildcards(m, last as usize, r, items, e);
        lemma_trusted(m, last as usize, r, trusted, e);
        if all.contains(e) {
            let n = choose|n: int| 0 <= n < all.len() && all[n] == e;
            if n < rest.len() {
                assert(rest[n] == e);
                assert(rest.contains(e));
                let p = choose|p: int|
                    0 <= p < front.len() && is_release_step(
                        m,
                        p,
                        #[trigger] front[p],
                        items,
                        trusted,
                        e,
                    );
                assert(releases[p] == front[p]);
            } else {
                if n < rest.len() + x.len() {
                    assert(x[n - rest.len()] == e);
                    assert(x.contains(e));
                } else {
                    assert(y[n - rest.len() - x.len()] == e);
                    assert(y.contains(e));
                }
                assert(is_release_step(m, last, releases[last], items, trusted, e));
            }
        }
        if exists|p: int|
            0 <= p < releases.len() && is_release_step(
                m,
                p,
                #[trigger] releases[p],
                items,
                trusted,
                e,
            ) {
            let p = choose|p: int|
                0 <= p < releases.len() && is_release_step(
                    m,
                    p,
                    #[trigger] releases[p],
                    items,
                    trusted,
                    e,
                );
            if p < front.len() {
                assert(front[p] == releases[p]);
                assert(rest.contains(e));
                let n = choose|n: int| 0 <= n < rest.len() && rest[n] == e;
                assert(all[n] == e);
            } else if x.contains(e) {
                let n = choose|n: int| 0 <= n < x.len() && x[n] == e;
                assert(all[rest.len() + n] == e);
            } else {
                assert(y.contains(e));
                let n = choose|n: int| 0 <= n < y.len() && y[n] == e;
                assert(all[rest.len() + x.len() + n] == e);
            }
        }
    }
}

/// The file that stands behind an index.
spec fn is_file(
    store: Store,
    extra: Option<AuditsFile>,
    import_index: Option<usize>,
    file: AuditsFile,
) -> bool {
    let imports = conflicts::imports_of(store).audits.entries();
    match import_index {
        Some(f) => f < imports.len() && imports[f as int].1 == file,
        None => file == store.audits || extra == Some(file),
    }
}

proof fn lemma_file(store: Store, extra: Option<AuditsFile>, f: int)
    requires
        0 <= f < audit_graph::source_files(store, extra).len(),
    ensures
        ({
            let s = audit_graph::source_files(store, extra)[f];
            is_file(store, extra, s.import_index, s.file)
        }),
{
    store.live().audits.lemma_fits();
}

proof fn lemma_find_file(
    store: Store,
    extra: Option<AuditsFile>,
    import_index: Option<usize>,
    file: AuditsFile,
) -> (f: int)
    requires
        is_file(store, extra, import_index, file),
    ensures
        0 <= f < audit_graph::source_files(store, extra).len(),
        audit_graph::source_files(store, extra)[f].import_index == import_index,
        audit_graph::source_files(store, extra)[f].file == file,
{
    let n = conflicts::imports_of(store).audits.entries().len() as int;
    match import_index {
        Some(f) => f as int,
        None => if file == store.audits {
            n
        } else {
            n + 1
        },
    }
}

proof fn lemma_audit_edges(
    store: Store,
    extra: Option<AuditsFile>,
    m: CriteriaMapper,
    name: Seq<char>,
    e: EdgeView,
)
    ensures
        audit_graph::audit_edges(
            m,
            audit_graph::all_audits(audit_graph::source_files(store, extra), name),
        ).contains(e) <==> is_backed(store, extra, m, name, e) && (e.origin is StoredLocalAudit
            || e.origin is ImportedAudit),
{
    let files = audit_graph::source_files(store, extra);
    let items = audit_graph::all_audits(files, name);
    let all = audit_graph::audit_edges(m, items);
    if all.contains(e) {
        let n = choose|n: int| 0 <= n < all.len() && all[n] == e;
        let k = entries::lemma_audit_edges_from(m, items, n);
        let (f, j) = entries::lemma_all_audits_from(files, name, k);
        lemma_file(store, extra, f);
        sorted_map::lemma_list_fits(files[f].file.audits, name);
    }
    if is_backed(store, extra, m, name, e) && (e.origin is StoredLocalAudit
        || e.origin is ImportedAudit) {
        let (import_index, file, j): (Option<usize>, AuditsFile, int) = match e.origin {
            DeltaEdgeOriginView::StoredLocalAudit { audit_index, importable } => {
                if is_own_audit(store.audits, m, name, audit_index, importable, e) {
                    (None, store.audits, audit_index as int)
                } else {
                    (None, extra->0, audit_index as int)
                }
            },
            DeltaEdgeOriginView::ImportedAudit { import_index, audit_index } => (
                Some(import_index),
                conflicts::imports_of(store).audits.entries()[import_index as int].1,
                audit_index as int,
            ),
            _ => arbitrary(),
        };
        let f = lemma_find_file(store, extra, import_index, file);
        let item = audit_graph::file_audits(files[f], name)[j];
        let k = entries::lemma_all_audits_has(files, name, f, j);
        let n = entries::lemma_audit_edges_has(m, items, k);
        assert(all[n] == e);
    }
}

proof fn lemma_release_edges(
    store: Store,
    extra: Option<AuditsFile>,
    m: CriteriaMapper,
    name: Seq<char>,
    e: EdgeView,
)
    ensures
        audit_graph::release_edges(
            m,
            sorted_map::views_at(store.live().publisher, name),
            audit_graph::all_wildcards(audit_graph::source_files(store, extra), name),
            sorted_map::views_at(store.audits.trusted, name),
        ).contains(e) <==> is_backed(store, extra, m, name, e) && (e.origin is WildcardAudit
            || e.origin is Trusted),
{
    let files = audit_graph::source_files(store, extra);
    let items = audit_graph::all_wildcards(files, name);
    let releases = sorted_map::views_at(store.live().publisher, name);
    let trusted = sorted_map::views_at(store.audits.trusted, name);
    let all = audit_graph::release_edges(m, releases, items, trusted);
    lemma_releases(m, releases, items, trusted, e);
    sorted_map::lemma_list_fits(store.live().publisher, name);
    if all.contains(e) {
        let p = choose|p: int|
            0 <= p < releases.len() && is_release_step(
                m,
                p,
                #[trigger] releases[p],
                items,
                trusted,
                e,
            );
        if exists|k: int|
            0 <= k < items.len() && covers_by_wildcard(releases[p], #[trigger] items[k]) && e
                == wildcard_edge(m, p as usize, releases[p], items[k]) {
            let k = choose|k: int|
                0 <= k < items.len() && covers_by_wildcard(releases[p], #[trigger] items[k]) && e
                    == wildcard_edge(m, p as usize, releases[p], items[k]);
            let (f, j) = entries::lemma_all_wildcards_from(files, name, k);
            lemma_file(store, extra, f);
            sorted_map::lemma_list_fits(files[f].file.wildcard_audits, name);
            assert(is_wildcard_step(files[f].file, m, name, j as usize, releases[p], e));
        }
    }
    if is_backed(store, extra, m, name, e) {
        match e.origin {
            DeltaEdgeOriginView::WildcardAudit { import_index, audit_index, publisher_index } => {
                let release = releases[publisher_index as int];
                let file = match import_index {
                    Some(f) => conflicts::imports_of(store).audits.entries()[f as int].1,
                    None => if is_wildcard_step(store.audits, m, name, audit_index, release, e) {
                        store.audits
                    } else {
                        extra->0
                    },
                };
                let f = lemma_find_file(store, extra, import_index, file);
                let k = entries::lemma_all_wildcards_has(files, name, f, audit_index as int);
                assert(covers_by_wildcard(release, items[k]));
                assert(e =~= wildcard_edge(m, publisher_index, release, items[k]));
                assert(is_release_step(
                    m,
                    publisher_index as int,
                    releases[publisher_index as int],
                    items,
                    trusted,
                    e,
                ));
            },
            DeltaEdgeOriginView::Trusted { publisher_index } => {
                let release = releases[publisher_index as int];
                let k = choose|k: int|
                    0 <= k < trusted.len() && (#[trigger] trusted[k]).source == release.source
                        && trusted[k].start <= release.when && release.when < trusted[k].end
                        && e.criteria == criteria::criteria_of(m, trusted[k].criteria);
                assert(covers_by_trust(release, trusted[k]));
                assert(e =~= trusted_edge(m, publisher_index, release, trusted[k]));
                assert(is_release_step(
                    m,
                    publisher_index as int,
                    releases[publisher_index as int],
                    items,
                    trusted,
                    e,
                ));
            },
            _ => {},
        }
    }
}

/// The edges of the audit graph of a package are exactly those that entries back:
/// audits of all files, wildcard audits and trusted sources for the releases that
/// they cover, unpublished entries, and exemptions.
pub proof fn law_edges_are_backed(
    store: Store,
    extra: Option<AuditsFile>,
    m: CriteriaMapper,
    name: Seq<char>,
    e: EdgeView,
)
    requires
        m.wf(),
    ensures
        audit_graph::store_edges(store, m, name, extra).contains(e) <==> is_backed(
            store,
            extra,
            m,
            name,
            e,
        ),
{
    let files = audit_graph::source_files(store, extra);
    let unpublished = sorted_map::views_at(store.live().unpublished, name);
    let exemptions = sorted_map::views_at(store.config.exemptions, name);
    let a1 = audit_graph::audit_edges(m, audit_graph::all_audits(files, name));
    let a2 = audit_graph::release_edges(
        m,
        sorted_map::views_at(store.live().publisher, name),
        audit_graph::all_wildcards(files, name),
        sorted_map::views_at(store.audits.trusted, name),
    );
    let a3 = audit_graph::unpublished_edges(m, unpublished);
    let a4 = audit_graph::exemption_edges(m, exemptions);
    let all = audit_graph::store_edges(store, m, name, extra);
    assert(all == a1 + a2 + a3 + a4);
    lemma_audit_edges(store, extra, m, name, e);
    lemma_release_edges(store, extra, m, name, e);
    sorted_map::lemma_list_fits(store.live().unpublished, name);
    sorted_map::lemma_list_fits(store.config.exemptions, name);
    demands::lemma_all_set(m.names@.len() as int);
    if all.contains(e) {
        let n = choose|n: int| 0 <= n < all.len() && all[n] == e;
        let n2 = n - a1.len();
        let n3 = n2 - a2.len();
        let n4 = n3 - a3.len();
        if n < a1.len() {
            assert(a1[n] == e);
            assert(a1.contains(e));
        } else if n2 < a2.len() {
            assert(a2[n2] == e);
            assert(a2.contains(e));
        } else if n3 < a3.len() {
            assert(a3[n3] == e);
        } else {
            assert(a4[n4] == e);
        }
    }
    if is_backed(store, extra, m, name, e) {
        match e.origin {
            DeltaEdgeOriginView::StoredLocalAudit { .. } => {
                let n = choose|n: int| 0 <= n < a1.len() && a1[n] == e;
                assert(all[n] == e);
            },
            DeltaEdgeOriginView::ImportedAudit { .. } => {
                let n = choose|n: int| 0 <= n < a1.len() && a1[n] == e;
                assert(all[n] == e);
            },
            DeltaEdgeOriginView::WildcardAudit { .. } => {
                let n = choose|n: int| 0 <= n < a2.len() && a2[n] == e;
                assert(all[a1.len() + n] == e);
            },
            DeltaEdgeOriginView::Trusted { .. } => {
                let n = choose|n: int| 0 <= n < a2.len() && a2[n] == e;
                assert(all[a1.len() + n] == e);
            },
            DeltaEdgeOriginView::Unpublished { unpublished_index } => {
                let n = unpublished_index as int;
                criteria::CriteriaSet::lemma_ext(
                    e.criteria,
                    criteria::all_set(m.names@.len() as int),
                );
                assert(a3[n] =~= e);
                assert(all[a1.len() + a2.len() + n] == e);
            },
            DeltaEdgeOriginView::Exemption { exemption_index } => {
                let n = exemption_index as int;
                assert(a4[n] =~= e);
                assert(all[a1.len() + a2.len() + a3.len() + n] == e);
            },
            DeltaEdgeOriginView::FreshExemption { .. } => {},
        }
    }
}

} // verus!
