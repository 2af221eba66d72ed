//! The graph of the audits of a package.

use vstd::prelude::*;
use crate::criteria;
use crate::criteria::{CriteriaMapper, CriteriaSet};
use crate::directed::DirectedAuditGraph;
use crate::edges;
use crate::edges::{
    DeltaEdge, DeltaEdgeFreshness, DeltaEdgeOrigin, DeltaEdgeOriginView, DeltaEdgeView, SearchMode,
};
use crate::records;
use crate::records::{
    source_eq, AuditEntry, AuditEntryView, AuditKind, AuditKindView, AuditsFile, CratesPublisher,
    CratesPublisherView, CratesSourceIdView, ExemptedDependency, ExemptedDependencyView, Store,
    TrustEntry, TrustEntryView, UnpublishedEntry, UnpublishedEntryView, WildcardEntry,
    WildcardEntryView,
};
use crate::search;
use crate::search::{search_for_path, NodeView, Query};
use crate::sorted_map;
use crate::text;
use crate::text::clone_opt_text;
use crate::version;
use crate::version::{clone_node, VetVersion, VetVersionView};

verus! {

/// Two entries of the store that contradict each other.
#[derive(Debug, PartialEq, Eq)]
pub enum ViolationConflict {
    /// A violation speaks against an exemption.
    UnauditedConflict {
        violation_source: Option<String>,
        violation: AuditEntry,
        exemptions: ExemptedDependency,
    },
    /// A violation speaks against an audit.
    AuditConflict {
        violation_source: Option<String>,
        violation: AuditEntry,
        audit_source: Option<String>,
        audit: AuditEntry,
    },
}

/// The contents of a [`ViolationConflict`].
#[verifier::ext_equal]
pub enum ViolationConflictView {
    UnauditedConflict {
        violation_source: Option<Seq<char>>,
        violation: AuditEntryView,
        exemptions: ExemptedDependencyView,
    },
    AuditConflict {
        violation_source: Option<Seq<char>>,
        violation: AuditEntryView,
        audit_source: Option<Seq<char>>,
        audit: AuditEntryView,
    },
}

impl View for ViolationConflict {
    type V = ViolationConflictView;

    open spec fn view(&self) -> ViolationConflictView {
        match *self {
            ViolationConflict::UnauditedConflict {
                violation_source,
                violation,
                exemptions,
            } => ViolationConflictView::UnauditedConflict {
                violation_source: text::opt_text(violation_source),
                violation: violation@,
                exemptions: exemptions@,
            },
            ViolationConflict::AuditConflict {
                violation_source,
                violation,
                audit_source,
                audit,
            } => ViolationConflictView::AuditConflict {
                violation_source: text::opt_text(violation_source),
                violation: violation@,
                audit_source: text::opt_text(audit_source),
                audit: audit@,
            },
        }
    }
}

impl Clone for ViolationConflict {
    fn clone(&self) -> (r: ViolationConflict)
        ensures
            r@ == self@,
    {
        match self {
            ViolationConflict::UnauditedConflict {
                violation_source,
                violation,
                exemptions,
            } => ViolationConflict::UnauditedConflict {
                violation_source: clone_opt_text(violation_source),
                violation: violation.clone(),
                exemptions: exemptions.clone(),
            },
            ViolationConflict::AuditConflict {
                violation_source,
                violation,
                audit_source,
                audit,
            } => ViolationConflict::AuditConflict {
                violation_source: clone_opt_text(violation_source),
                violation: violation.clone(),
                audit_source: clone_opt_text(audit_source),
                audit: audit.clone(),
            },
        }
    }
}

/// An edge of the audit graph, with both of its ends.
#[verifier::ext_equal]
pub struct EdgeView {
    pub from: Option<VetVersionView>,
    pub to: Option<VetVersionView>,
    pub criteria: CriteriaSet,
    pub origin: DeltaEdgeOriginView,
    pub freshness: DeltaEdgeFreshness,
}

impl EdgeView {
    /// The edge as it leaves its first end.
    pub open spec fn forward(self) -> DeltaEdgeView {
        DeltaEdgeView {
            version: self.to,
            criteria: self.criteria,
            origin: self.origin,
            freshness: self.freshness,
        }
    }

    /// The edge as it leaves its second end, turned around.
    pub open spec fn backward(self) -> DeltaEdgeView {
        DeltaEdgeView {
            version: self.from,
            criteria: self.criteria,
            origin: self.origin,
            freshness: self.freshness,
        }
    }
}

/// The edges that leave `v`.
pub open spec fn forward_from(s: Seq<EdgeView>, v: Option<VetVersionView>) -> Seq<DeltaEdgeView>
    decreases s.len(),
{
    if s.len() == 0 {
        Seq::empty()
    } else if s.last().from == v {
        forward_from(s.drop_last(), v).push(s.last().forward())
    } else {
        forward_from(s.drop_last(), v)
    }
}

/// The edges that lead to `v`, turned around.
pub open spec fn backward_from(s: Seq<EdgeView>, v: Option<VetVersionView>) -> Seq<DeltaEdgeView>
    decreases s.len(),
{
    if s.len() == 0 {
        Seq::empty()
    } else if s.last().to == v {
        backward_from(s.drop_last(), v).push(s.last().backward())
    } else {
        backward_from(s.drop_last(), v)
    }
}

/// A file of audits and where it comes from.
pub struct SourceFile {
    pub import_index: Option<usize>,
    pub source: Option<Seq<char>>,
    pub file: AuditsFile,
}

/// An audit, where it comes from and what its edge stands for.
#[verifier::ext_equal]
pub struct AuditItem {
    pub source: Option<Seq<char>>,
    pub origin: DeltaEdgeOriginView,
    pub entry: AuditEntryView,
}

/// A wildcard audit and its place.
#[verifier::ext_equal]
pub struct WildcardItem {
    pub import_index: Option<usize>,
    pub audit_index: usize,
    pub entry: WildcardEntryView,
}

/// All files of audits: the imported ones, the project's own, and an extra one.
pub open spec fn source_files(store: Store, extra: Option<AuditsFile>) -> Seq<SourceFile> {
    let imports = store.live().audits.entries();
    Seq::new(
        imports.len(),
        |i: int|
            SourceFile {
                import_index: Some(i as usize),
                source: Some(imports[i].0@),
                file: imports[i].1,
            },
    ) + seq![SourceFile { import_index: None, source: None, file: store.audits }] + (match extra {
        Some(file) => seq![SourceFile { import_index: None, source: None, file }],
        None => Seq::empty(),
    })
}

/// What the edge of an audit stands for.
pub open spec fn audit_origin(
    import_index: Option<usize>,
    audit_index: usize,
    entry: AuditEntryView,
) -> DeltaEdgeOriginView {
    match import_index {
        Some(import_index) => DeltaEdgeOriginView::ImportedAudit { import_index, audit_index },
        None => DeltaEdgeOriginView::StoredLocalAudit { audit_index, importable: entry.importable },
    }
}

/// The audits of a package in one file.
pub open spec fn file_audits(f: SourceFile, package: Seq<char>) -> Seq<AuditItem> {
    let list = sorted_map::views_at(f.file.audits, package);
    Seq::new(
        list.len(),
        |k: int|
            AuditItem {
                source: f.source,
                origin: audit_origin(f.import_index, k as usize, list[k]),
                entry: list[k],
            },
    )
}

/// The wildcard audits of a package in one file.
pub open spec fn file_wildcards(f: SourceFile, package: Seq<char>) -> Seq<WildcardItem> {
    let list = sorted_map::views_at(f.file.wildcard_audits, package);
    Seq::new(
        list.len(),
        |k: int|
            WildcardItem {
                import_index: f.import_index,
                audit_index: k as usize,
                entry: list[k],
            },
    )
}

/// The audits of a package in all files.
pub open spec fn all_audits(files: Seq<SourceFile>, package: Seq<char>) -> Seq<AuditItem>
    decreases files.len(),
{
    if files.len() == 0 {
        Seq::empty()
    } else {
        all_audits(files.drop_last(), package) + file_audits(files.last(), package)
    }
}

/// The wildcard audits of a package in all files.
pub open spec fn all_wildcards(files: Seq<SourceFile>, package: Seq<char>) -> Seq<WildcardItem>
    decreases files.len(),
{
    if files.len() == 0 {
        Seq::empty()
    } else {
        all_wildcards(files.drop_last(), package) + file_wildcards(files.last(), package)
    }
}

/// The edge between two versions that an audit stands for. A full audit is an
/// edge that leaves the root.
pub open spec fn audit_edge(m: CriteriaMapper, item: AuditItem) -> EdgeView {
    EdgeView {
        from: match item.entry.kind {
            AuditKindView::Delta { from, to } => Some(from),
            _ => None,
        },
        to: match item.entry.kind {
            AuditKindView::Full { version } => Some(version),
            AuditKindView::Delta { from, to } => Some(to),
            AuditKindView::Violation { .. } => None,
        },
        criteria: criteria::criteria_of(m, item.entry.criteria),
        origin: item.origin,
        freshness: DeltaEdgeFreshness::spec_new(item.entry.is_fresh_import, false),
    }
}

/// The edges of the audits that are no violations.
pub open spec fn audit_edges(m: CriteriaMapper, items: Seq<AuditItem>) -> Seq<EdgeView>
    decreases items.len(),
{
    if items.len() == 0 {
        Seq::empty()
    } else if items.last().entry.kind is Violation {
        audit_edges(m, items.drop_last())
    } else {
        audit_edges(m, items.drop_last()).push(audit_edge(m, items.last()))
    }
}

/// Whether a source that is covered in a period published the release in it.
pub open spec fn covers_release(
    source: CratesSourceIdView,
    start: u64,
    end: u64,
    release: CratesPublisherView,
) -> bool {
    source == release.source && start <= release.when && release.when < end
}

/// The edges by which wildcard audits cover a release.
pub open spec fn wildcard_edges(
    m: CriteriaMapper,
    publisher_index: usize,
    release: CratesPublisherView,
    items: Seq<WildcardItem>,
) -> Seq<EdgeView>
    decreases items.len(),
{
    if items.len() == 0 {
        Seq::empty()
    } else {
        let rest = wildcard_edges(m, publisher_index, release, items.drop_last());
        let item = items.last();
        if covers_release(item.entry.source, item.entry.start, item.entry.end, release) {
            rest.push(
                EdgeView {
                    from: None,
                    to: Some(release.version),
                    criteria: criteria::criteria_of(m, item.entry.criteria),
                    origin: DeltaEdgeOriginView::WildcardAudit {
                        import_index: item.import_index,
                        audit_index: item.audit_index,
                        publisher_index,
                    },
                    freshness: DeltaEdgeFreshness::spec_new(
                        item.entry.is_fresh_import,
                        release.is_fresh_import,
                    ),
                },
            )
        } else {
            rest
        }
    }
}

/// The edges by which trusted sources cover a release. A fresh release makes
/// the edge as fresh as a fresh audit would.
pub open spec fn trusted_edges(
    m: CriteriaMapper,
    publisher_index: usize,
    release: CratesPublisherView,
    trusted: Seq<TrustEntryView>,
) -> Seq<EdgeView>
    decreases trusted.len(),
{
    if trusted.len() == 0 {
        Seq::empty()
    } else {
        let rest = trusted_edges(m, publisher_index, release, trusted.drop_last());
        let entry = trusted.last();
        if covers_release(entry.source, entry.start, entry.end, release) {
            rest.push(
                EdgeView {
                    from: None,
                    to: Some(release.version),
                    criteria: criteria::criteria_of(m, entry.criteria),
                    origin: DeltaEdgeOriginView::Trusted { publisher_index },
                    freshness: DeltaEdgeFreshness::spec_new(release.is_fresh_import, false),
                },
            )
        } else {
            rest
        }
    }
}

/// The edges of all releases.
pub open spec fn release_edges(
    m: CriteriaMapper,
    releases: Seq<CratesPublisherView>,
    items: Seq<WildcardItem>,
    trusted: Seq<TrustEntryView>,
) -> Seq<EdgeView>
    decreases releases.len(),
{
    if releases.len() == 0 {
        Seq::empty()
    } else {
        let i = (releases.len() - 1) as usize;
        release_edges(m, releases.drop_last(), items, trusted) + wildcard_edges(
            m,
            i,
            releases.last(),
            items,
        ) + trusted_edges(m, i, releases.last(), trusted)
    }
}

/// The edges of unpublished entries: each is audited as the version that
/// stands for it, whatever the criteria.
pub open spec fn unpublished_edges(
    m: CriteriaMapper,
    entries: Seq<UnpublishedEntryView>,
) -> Seq<EdgeView> {
    Seq::new(
        entries.len(),
        |k: int|
            EdgeView {
                from: Some(entries[k].audited_as),
                to: Some(entries[k].version),
                criteria: criteria::all_set(m.names@.len() as int),
                origin: DeltaEdgeOriginView::Unpublished { unpublished_index: k as usize },
                freshness: DeltaEdgeFreshness::spec_new(entries[k].is_fresh_import, false),
            },
    )
}

/// The edges of exemptions: each counts as a full audit.
pub open spec fn exemption_edges(
    m: CriteriaMapper,
    entries: Seq<ExemptedDependencyView>,
) -> Seq<EdgeView> {
    Seq::new(
        entries.len(),
        |k: int|
            EdgeView {
                from: None,
                to: Some(entries[k].version),
                criteria: criteria::criteria_of(m, entries[k].criteria),
                origin: DeltaEdgeOriginView::Exemption { exemption_index: k as usize },
                freshness: DeltaEdgeFreshness::Stale,
            },
    )
}

/// All edges of the audit graph of a package.
pub open spec fn store_edges(
    store: Store,
    m: CriteriaMapper,
    package: Seq<char>,
    extra: Option<AuditsFile>,
) -> Seq<EdgeView> {
    let files = source_files(store, extra);
    audit_edges(m, all_audits(files, package)) + release_edges(
        m,
        sorted_map::views_at(store.live().publisher, package),
        all_wildcards(files, package),
        sorted_map::views_at(store.audits.trusted, package),
    ) + unpublished_edges(m, sorted_map::views_at(store.live().unpublished, package))
        + exemption_edges(m, sorted_map::views_at(store.config.exemptions, package))
}

/// Whether a violation speaks against an audit for `audited`. It does if one of
/// its criteria, with all that it implies, is audited: a violation of several
/// criteria is a violation of each.
pub open spec fn trips(
    m: CriteriaMapper,
    violated: Seq<Seq<char>>,
    audited: Seq<Seq<char>>,
) -> bool {
    exists|k: int|
        0 <= k < violated.len() && criteria::criteria_of(m, audited).covers(
            criteria::criteria_of(m, seq![#[trigger] violated[k]]),
        )
}

/// Whether an audit is about a version in the range of a violation.
pub open spec fn audit_in_range(range: Seq<char>, kind: AuditKindView) -> bool {
    match kind {
        AuditKindView::Full { version } => records::req_matches(range, version),
        AuditKindView::Delta { from, to } => records::req_matches(range, from)
            || records::req_matches(range, to),
        AuditKindView::Violation { .. } => false,
    }
}

/// The exemptions that a violation speaks against.
pub open spec fn exemption_conflicts(
    m: CriteriaMapper,
    violation: AuditItem,
    exemptions: Seq<ExemptedDependencyView>,
) -> Seq<ViolationConflictView>
    decreases exemptions.len(),
{
    if exemptions.len() == 0 {
        Seq::empty()
    } else {
        let rest = exemption_conflicts(m, violation, exemptions.drop_last());
        let e = exemptions.last();
        if trips(m, violation.entry.criteria, e.criteria) && records::req_matches(
            violation.entry.kind->violation,
            e.version,
        ) {
            rest.push(
                ViolationConflictView::UnauditedConflict {
                    violation_source: violation.source,
                    violation: violation.entry,
                    exemptions: e,
                },
            )
        } else {
            rest
        }
    }
}

/// The audits that a violation speaks against.
pub open spec fn audit_conflicts(
    m: CriteriaMapper,
    violation: AuditItem,
    items: Seq<AuditItem>,
) -> Seq<ViolationConflictView>
    decreases items.len(),
{
    if items.len() == 0 {
        Seq::empty()
    } else {
        let rest = audit_conflicts(m, violation, items.drop_last());
        let a = items.last();
        if trips(m, violation.entry.criteria, a.entry.criteria) && audit_in_range(
            violation.entry.kind->violation,
            a.entry.kind,
        ) {
            rest.push(
                ViolationConflictView::AuditConflict {
                    violation_source: violation.source,
                    violation: violation.entry,
                    audit_source: a.source,
                    audit: a.entry,
                },
            )
        } else {
            rest
        }
    }
}

/// Everything that the violations among `violations` speak against.
pub open spec fn conflicts_of(
    m: CriteriaMapper,
    violations: Seq<AuditItem>,
    items: Seq<AuditItem>,
    exemptions: Seq<ExemptedDependencyView>,
) -> Seq<ViolationConflictView>
    decreases violations.len(),
{
    if violations.len() == 0 {
        Seq::empty()
    } else {
        let rest = conflicts_of(m, violations.drop_last(), items, exemptions);
        let v = violations.last();
        if v.entry.kind is Violation {
            rest + exemption_conflicts(m, v, exemptions) + audit_conflicts(m, v, items)
        } else {
            rest
        }
    }
}

/// The entries for a package that contradict each other.
pub open spec fn store_conflicts(
    store: Store,
    m: CriteriaMapper,
    package: Seq<char>,
    extra: Option<AuditsFile>,
) -> Seq<ViolationConflictView> {
    let items = all_audits(source_files(store, extra), package);
    conflicts_of(m, items, items, sorted_map::views_at(store.config.exemptions, package))
}

/// A graph of the audits for a package.
///
/// The nodes of the graph are versions and the edges are audits. The graph is
/// directed, potentially cyclic, and potentially disconnected. There are two
/// important versions in it: the root (`None`), which is a dummy node for full
/// audits, and the target, which is the version of the package in use.
///
/// The backward graph has the same edges, turned around.
#[derive(Debug)]
pub struct AuditGraph {
    forward_audits: DirectedAuditGraph,
    backward_audits: DirectedAuditGraph,
}

/// Nodes that a failed search could reach.
#[derive(Debug, PartialEq, Eq)]
pub struct SearchFailure {
    /// Nodes that could be reached from the root, in order.
    pub reachable_from_root: Vec<Option<VetVersion>>,
    /// Nodes that could be reached from the target, in order.
    pub reachable_from_target: Vec<Option<VetVersion>>,
}

struct FileRef<'a> {
    import_index: Option<usize>,
    source: Option<&'a String>,
    file: &'a AuditsFile,
}

struct AuditRef<'a> {
    source: Option<&'a String>,
    origin: DeltaEdgeOrigin,
    entry: &'a AuditEntry,
}

struct WildcardRef<'a> {
    import_index: Option<usize>,
    audit_index: usize,
    entry: &'a WildcardEntry,
}

spec fn source_view(s: Option<&String>) -> Option<Seq<char>> {
    match s {
        Some(s) => Some(s@),
        None => None,
    }
}

impl<'a> FileRef<'a> {
    spec fn model(self) -> SourceFile {
        SourceFile {
            import_index: self.import_index,
            source: source_view(self.source),
            file: *self.file,
        }
    }
}

impl<'a> View for AuditRef<'a> {
    type V = AuditItem;

    closed spec fn view(&self) -> AuditItem {
        AuditItem { source: source_view(self.source), origin: self.origin@, entry: self.entry@ }
    }
}

impl<'a> View for WildcardRef<'a> {
    type V = WildcardItem;

    closed spec fn view(&self) -> WildcardItem {
        WildcardItem {
            import_index: self.import_index,
            audit_index: self.audit_index,
            entry: self.entry@,
        }
    }
}

spec fn file_models(s: Seq<FileRef<'_>>) -> Seq<SourceFile> {
    s.map_values(|f: FileRef<'_>| f.model())
}

fn clone_source(s: Option<&String>) -> (r: Option<String>)
    ensures
        text::opt_text(r) == source_view(s),
{
    match s {
        Some(s) => Some(s.clone()),
        None => None,
    }
}

fn collect_files<'a>(store: &'a Store, extra: Option<&'a AuditsFile>) -> (r: Vec<FileRef<'a>>)
    ensures
        file_models(r@) == source_files(
            *store,
            match extra {
                Some(f) => Some(*f),
                None => None,
            },
        ),
{
    let ghost extra_file: Option<AuditsFile> = match extra {
        Some(f) => Some(*f),
        None => None,
    };
    let ghost all = source_files(*store, extra_file);
    let imports = store.imported_audits();
    let mut r: Vec<FileRef<'a>> = Vec::new();
    let n: usize = imports.len();
    let mut i: usize = 0;
    while i < n
        invariant
            i <= n,
            n == imports.entries().len(),
            *imports == store.live().audits,
            all == source_files(*store, extra_file),
            file_models(r@) == all.take(i as int),
        decreases n - i,
    {
        let ghost before = r@;
        r.push(
            FileRef {
                import_index: Some(i),
                source: Some(imports.key_at(i)),
                file: imports.value_at(i),
            },
        );
        proof {
            assert(file_models(r@) =~= file_models(before).push(all[i as int]));
            assert(all.take(i + 1) =~= all.take(i as int).push(all[i as int]));
        }
        i = i + 1;
    }
    let ghost before = r@;
    r.push(FileRef { import_index: None, source: None, file: &store.audits });
    proof {
        assert(file_models(r@) =~= file_models(before).push(all[n as int]));
        assert(all.take(n + 1) =~= all.take(n as int).push(all[n as int]));
    }
    let ghost before = r@;
    match extra {
        Some(file) => {
            r.push(FileRef { import_index: None, source: None, file });
            proof {
                assert(file_models(r@) =~= file_models(before).push(all[n + 1]));
                assert(all =~= all.take(n + 1).push(all[n + 1]));
            }
        },
        None => {
            assert(all =~= all.take(n + 1));
        },
    }
    r
}

fn collect_audits<'a>(files: &Vec<FileRef<'a>>, package: &str) -> (r: Vec<AuditRef<'a>>)
    ensures
        sorted_map::views(r@) == all_audits(file_models(files@), package@),
{
    let ghost all = file_models(files@);
    let mut r: Vec<AuditRef<'a>> = Vec::new();
    let mut i: usize = 0;
    assert(sorted_map::views(r@) =~= all_audits(all.take(0), package@));
    while i < files.len()
        invariant
            i <= files@.len(),
            all == file_models(files@),
            sorted_map::views(r@) == all_audits(all.take(i as int), package@),
        decreases files@.len() - i,
    {
        let f: &FileRef<'a> = &files[i];
        let file: &'a AuditsFile = f.file;
        let ghost start = sorted_map::views(r@);
        let ghost items = file_audits(f.model(), package@);
        assert(all.take(i + 1).drop_last() =~= all.take(i as int));
        assert(all.take(i + 1).last() == f.model());
        match file.audits.get(package) {
            Some(list) => {
                let mut k: usize = 0;
                assert(start + items.take(0) =~= start);
                while k < list.len()
                    invariant
                        k <= list@.len(),
                        items == file_audits(f.model(), package@),
                        *file == *f.file,
                        file.audits.get_spec(package@) == Some(*list),
                        sorted_map::views(r@) == start + items.take(k as int),
                    decreases list@.len() - k,
                {
                    let entry: &'a AuditEntry = &list[k];
                    let origin: DeltaEdgeOrigin = match f.import_index {
                        Some(import_index) => DeltaEdgeOrigin::ImportedAudit {
                            import_index,
                            audit_index: k,
                        },
                        None => DeltaEdgeOrigin::StoredLocalAudit {
                            audit_index: k,
                            importable: entry.importable,
                        },
                    };
                    let item: AuditRef<'a> = AuditRef { source: f.source, origin, entry };
                    proof {
                        let l = sorted_map::views_at(file.audits, package@);
                        assert(l[k as int] == entry@);
                        assert(item@ == items[k as int]);
                    }
                    let ghost before = r@;
                    r.push(item);
                    proof {
                        assert(sorted_map::views(r@) =~= sorted_map::views(before).push(item@));
                        assert(items.take(k + 1) =~= items.take(k as int).push(items[k as int]));
                        assert(start + items.take(k + 1) =~= (start + items.take(k as int)).push(
                            items[k as int],
                        ));
                    }
                    k = k + 1;
                }
                assert(items.take(k as int) =~= items);
            },
            None => {
                assert(start + items =~= start);
            },
        }
        i = i + 1;
    }
    assert(all.take(i as int) =~= all);
    r
}

fn collect_wildcards<'a>(files: &Vec<FileRef<'a>>, package: &str) -> (r: Vec<WildcardRef<'a>>)
    ensures
        sorted_map::views(r@) == all_wildcards(file_models(files@), package@),
{
    let ghost all = file_models(files@);
    let mut r: Vec<WildcardRef<'a>> = Vec::new();
    let mut i: usize = 0;
    assert(sorted_map::views(r@) =~= all_wildcards(all.take(0), package@));
    while i < files.len()
        invariant
            i <= files@.len(),
            all == file_models(files@),
            sorted_map::views(r@) == all_wildcards(all.take(i as int), package@),
        decreases files@.len() - i,
    {
        let f: &FileRef<'a> = &files[i];
        let file: &'a AuditsFile = f.file;
        let ghost start = sorted_map::views(r@);
        let ghost items = file_wildcards(f.model(), package@);
        assert(all.take(i + 1).drop_last() =~= all.take(i as int));
        assert(all.take(i + 1).last() == f.model());
        match file.wildcard_audits.get(package) {
            Some(list) => {
                let mut k: usize = 0;
                assert(start + items.take(0) =~= start);
                while k < list.len()
                    invariant
                        k <= list@.len(),
                        items == file_wildcards(f.model(), package@),
                        *file == *f.file,
                        file.wildcard_audits.get_spec(package@) == Some(*list),
                        sorted_map::views(r@) == start + items.take(k as int),
                    decreases list@.len() - k,
                {
                    let entry: &'a WildcardEntry = &list[k];
                    let item: WildcardRef<'a> = WildcardRef {
                        import_index: f.import_index,
                        audit_index: k,
                        entry,
                    };
                    proof {
                        let l = sorted_map::views_at(file.wildcard_audits, package@);
                        assert(l[k as int] == entry@);
                        assert(item@ == items[k as int]);
                    }
                    let ghost before = r@;
                    r.push(item);
                    proof {
                        assert(sorted_map::views(r@) =~= sorted_map::views(before).push(item@));
                        assert(items.take(k + 1) =~= items.take(k as int).push(items[k as int]));
                        assert(start + items.take(k + 1) =~= (start + items.take(k as int)).push(
                            items[k as int],
                        ));
                    }
                    k = k + 1;
                }
                assert(items.take(k as int) =~= items);
            },
            None => {
                assert(start + items =~= start);
            },
        }
        i = i + 1;
    }
    assert(all.take(i as int) =~= all);
    r
}

/// The edges of a list that leave a node, found by their position in the list.
pub proof fn lemma_forward_member(s: Seq<EdgeView>, v: Option<VetVersionView>, k: int) -> (i: int)
    requires
        0 <= k < forward_from(s, v).len(),
    ensures
        0 <= i < s.len(),
        s[i].from == v,
        s[i].forward() == forward_from(s, v)[k],
    decreases s.len(),
{
    if s.last().from == v && k == forward_from(s, v).len() - 1 {
        s.len() - 1
    } else {
        lemma_forward_member(s.drop_last(), v, k)
    }
}

/// The edges of a list that lead to a node, found by their position in the list.
pub proof fn lemma_backward_member(s: Seq<EdgeView>, v: Option<VetVersionView>, k: int) -> (i: int)
    requires
        0 <= k < backward_from(s, v).len(),
    ensures
        0 <= i < s.len(),
        s[i].to == v,
        s[i].backward() == backward_from(s, v)[k],
    decreases s.len(),
{
    if s.last().to == v && k == backward_from(s, v).len() - 1 {
        s.len() - 1
    } else {
        lemma_backward_member(s.drop_last(), v, k)
    }
}

/// Every edge of a list leaves its first end.
pub proof fn lemma_forward_has(s: Seq<EdgeView>, i: int) -> (k: int)
    requires
        0 <= i < s.len(),
    ensures
        0 <= k < forward_from(s, s[i].from).len(),
        forward_from(s, s[i].from)[k] == s[i].forward(),
    decreases s.len(),
{
    if i == s.len() - 1 {
        forward_from(s, s[i].from).len() - 1
    } else {
        lemma_forward_has(s.drop_last(), i)
    }
}

/// Every edge of a list leads to its second end.
pub proof fn lemma_backward_has(s: Seq<EdgeView>, i: int) -> (k: int)
    requires
        0 <= i < s.len(),
    ensures
        0 <= k < backward_from(s, s[i].to).len(),
        backward_from(s, s[i].to)[k] == s[i].backward(),
    decreases s.len(),
{
    if i == s.len() - 1 {
        backward_from(s, s[i].to).len() - 1
    } else {
        lemma_backward_has(s.drop_last(), i)
    }
}

/// A node one edge away from a reachable node is reachable.
pub proof fn lemma_reach_step(q: Query, a: Option<VetVersionView>, k: int)
    requires
        q.reachable(a),
        0 <= k < (q.edges)(a).len(),
        search::usable((q.edges)(a)[k], q.criteria_idx, q.mode),
    ensures
        q.reachable((q.edges)(a)[k].version),
{
    let w = choose|w: Seq<NodeView>| #[trigger] q.is_walk(w) && w.last().version == a;
    let e = (q.edges)(a)[k];
    let n = search::extend(w.last(), e, q.mode);
    let u = w.push(n);
    assert(q.follows(w.last(), n, k));
    assert forall|i: int| 0 <= i < u.len() - 1 implies q.is_successor(#[trigger] u[i], u[i + 1]) by {
        if i < w.len() - 1 {
            assert(u[i] == w[i] && u[i + 1] == w[i + 1]);
        } else {
            assert(u[i] == w.last());
        }
    }
    assert(q.is_walk(u) && u.last().version == e.version);
}

/// The search from the target to the root.
pub open spec fn to_root(
    s: Seq<EdgeView>,
    criteria_idx: int,
    version: VetVersionView,
    mode: SearchMode,
) -> Query {
    Query {
        edges: |v: Option<VetVersionView>| backward_from(s, v),
        criteria_idx,
        from: Some(version),
        to: None,
        mode,
    }
}

/// The search from the root to the target.
pub open spec fn to_target(
    s: Seq<EdgeView>,
    criteria_idx: int,
    version: VetVersionView,
    mode: SearchMode,
) -> Query {
    Query {
        edges: |v: Option<VetVersionView>| forward_from(s, v),
        criteria_idx,
        from: None,
        to: Some(version),
        mode,
    }
}

/// Whether a search in the graph with the edges `s` can have a result: a path if
/// there is one, and otherwise what can be reached from either end.
pub open spec fn is_search_result(
    s: Seq<EdgeView>,
    criteria_idx: int,
    version: VetVersionView,
    mode: SearchMode,
    r: Result<Vec<DeltaEdgeOrigin>, SearchFailure>,
) -> bool {
    let to_root = to_root(s, criteria_idx, version, mode);
    let to_target = to_target(s, criteria_idx, version, mode);
    match r {
        Ok(path) => to_root.reachable(None) && to_root.can_find(edges::origins(path@)),
        Err(failure) => mode != SearchMode::RegenerateExemptions && !to_root.reachable(None)
            && !to_target.reachable(Some(version)) && search::lists_reachable(
            failure.reachable_from_root@,
            to_target,
        ) && search::lists_reachable(failure.reachable_from_target@, to_root),
    }
}

/// What the search from the root reaches, the search to the root reaches too.
pub proof fn lemma_turn_back(s: Seq<EdgeView>, there: Query, back: Query, w: Seq<NodeView>, n: int)
    requires
        forall|v: Option<VetVersionView>| #[trigger] (there.edges)(v) == forward_from(s, v),
        forall|v: Option<VetVersionView>| #[trigger] (back.edges)(v) == backward_from(s, v),
        there.criteria_idx == back.criteria_idx,
        there.mode == back.mode,
        there.mode != SearchMode::RegenerateExemptions,
        there.is_walk(w),
        back.from == w.last().version,
        0 <= n < w.len(),
    ensures
        back.reachable(w[n].version),
    decreases w.len() - n,
{
    if n == w.len() - 1 {
        let u = seq![back.start()];
        assert(back.is_walk(u) && u.last().version == w[n].version);
    } else {
        lemma_turn_back(s, there, back, w, n + 1);
        assert(there.is_successor(w[n], w[n + 1]));
        let x = w[n];
        let y = w[n + 1];
        let k = choose|k: int| there.follows(x, y, k);
        let i = lemma_forward_member(s, x.version, k);
        let m = lemma_backward_has(s, i);
        lemma_reach_step(back, y.version, m);
    }
}

/// What the search to the root reaches, the search from the root reaches too.
pub proof fn lemma_turn_forth(s: Seq<EdgeView>, there: Query, back: Query, w: Seq<NodeView>, n: int)
    requires
        forall|v: Option<VetVersionView>| #[trigger] (there.edges)(v) == backward_from(s, v),
        forall|v: Option<VetVersionView>| #[trigger] (back.edges)(v) == forward_from(s, v),
        there.criteria_idx == back.criteria_idx,
        there.mode == back.mode,
        there.mode != SearchMode::RegenerateExemptions,
        there.is_walk(w),
        back.from == w.last().version,
        0 <= n < w.len(),
    ensures
        back.reachable(w[n].version),
    decreases w.len() - n,
{
    if n == w.len() - 1 {
        let u = seq![back.start()];
        assert(back.is_walk(u) && u.last().version == w[n].version);
    } else {
        lemma_turn_forth(s, there, back, w, n + 1);
        assert(there.is_successor(w[n], w[n + 1]));
        let x = w[n];
        let y = w[n + 1];
        let k = choose|k: int| there.follows(x, y, k);
        let i = lemma_backward_member(s, x.version, k);
        let m = lemma_forward_has(s, i);
        lemma_reach_step(back, y.version, m);
    }
}

/// Unless exemptions are regenerated, the target can be reached from the root
/// exactly if the root can be reached from the target.
pub proof fn law_directions_agree(
    s: Seq<EdgeView>,
    criteria_idx: int,
    version: VetVersionView,
    mode: SearchMode,
)
    requires
        mode != SearchMode::RegenerateExemptions,
    ensures
        to_root(s, criteria_idx, version, mode).reachable(None) == to_target(
            s,
            criteria_idx,
            version,
            mode,
        ).reachable(Some(version)),
{
    let root = to_root(s, criteria_idx, version, mode);
    let target = to_target(s, criteria_idx, version, mode);
    if target.reachable(Some(version)) {
        let w = choose|w: Seq<NodeView>| #[trigger]
            target.is_walk(w) && w.last().version == Some(version);
        lemma_turn_back(s, target, root, w, 0);
    }
    if root.reachable(None) {
        let w = choose|w: Seq<NodeView>| #[trigger]
            root.is_walk(w) && w.last().version == None::<VetVersionView>;
        lemma_turn_forth(s, root, target, w, 0);
    }
}

impl AuditGraph {
    /// The graph whose edges lead from the root to newer versions.
    pub closed spec fn forward(&self) -> DirectedAuditGraph {
        self.forward_audits
    }

    /// The graph whose edges are turned around.
    pub closed spec fn backward(&self) -> DirectedAuditGraph {
        self.backward_audits
    }

    /// Whether the graph has exactly the given edges.
    pub open spec fn models(&self, s: Seq<EdgeView>) -> bool {
        forall|v: Option<VetVersionView>|
            #![trigger self.forward().edges_from(v)]
            #![trigger self.backward().edges_from(v)]
            self.forward().edges_from(v) == forward_from(s, v) && self.backward().edges_from(v)
                == backward_from(s, v)
    }

    /// Both directions have the same edges.
    pub open spec fn wf(&self) -> bool {
        exists|s: Seq<EdgeView>| self.models(s)
    }

    fn empty() -> (r: AuditGraph)
        ensures
            r.models(Seq::empty()),
    {
        AuditGraph {
            forward_audits: DirectedAuditGraph::new(),
            backward_audits: DirectedAuditGraph::new(),
        }
    }

    fn add(
        &mut self,
        from: Option<VetVersion>,
        to: Option<VetVersion>,
        criteria: CriteriaSet,
        origin: DeltaEdgeOrigin,
        freshness: DeltaEdgeFreshness,
        Ghost(s): Ghost<Seq<EdgeView>>,
    )
        requires
            old(self).models(s),
        ensures
            final(self).models(
                s.push(
                    EdgeView {
                        from: version::node(from),
                        to: version::node(to),
                        criteria,
                        origin: origin@,
                        freshness,
                    },
                ),
            ),
    {
        let ghost e = EdgeView {
            from: version::node(from),
            to: version::node(to),
            criteria,
            origin: origin@,
            freshness,
        };
        self.forward_audits.add_edge(
            clone_node(&from),
            DeltaEdge {
                version: clone_node(&to),
                criteria,
                origin: origin.clone(),
                freshness,
            },
        );
        self.backward_audits.add_edge(
            to,
            DeltaEdge { version: from, criteria, origin, freshness },
        );
        proof {
            let u = s.push(e);
            assert(u.drop_last() =~= s);
            assert forall|v: Option<VetVersionView>|
                #![trigger self.forward().edges_from(v)]
                #![trigger self.backward().edges_from(v)]
                self.forward().edges_from(v) == forward_from(u, v) && self.backward().edges_from(v)
                    == backward_from(u, v) by {
                assert(old(self).forward().edges_from(v) == forward_from(s, v));
                assert(old(self).backward().edges_from(v) == backward_from(s, v));
            }
        }
    }

    fn add_audits(&mut self, m: &CriteriaMapper, items: &Vec<AuditRef<'_>>)
        requires
            m.wf(),
            old(self).models(Seq::empty()),
        ensures
            final(self).models(audit_edges(*m, sorted_map::views(items@))),
    {
        let ghost all = sorted_map::views(items@);
        let mut i: usize = 0;
        while i < items.len()
            invariant
                i <= items@.len(),
                m.wf(),
                all == sorted_map::views(items@),
                self.models(audit_edges(*m, all.take(i as int))),
            decreases items@.len() - i,
        {
            let item: &AuditRef<'_> = &items[i];
            proof {
                assert(all.take(i + 1).drop_last() =~= all.take(i as int));
                assert(all.take(i + 1).last() == item@);
            }
            let ends: Option<(Option<VetVersion>, Option<VetVersion>)> = match &item.entry.kind {
                AuditKind::Full { version } => Some((None, Some(version.clone()))),
                AuditKind::Delta { from, to } => Some((Some(from.clone()), Some(to.clone()))),
                AuditKind::Violation { violation: _ } => None,
            };
            match ends {
                Some((from, to)) => {
                    let criteria: CriteriaSet = m.criteria_from_list(&item.entry.criteria);
                    let freshness: DeltaEdgeFreshness = DeltaEdgeFreshness::new(
                        item.entry.is_fresh_import,
                        false,
                    );
                    self.add(
                        from,
                        to,
                        criteria,
                        item.origin.clone(),
                        freshness,
                        Ghost(audit_edges(*m, all.take(i as int))),
                    );
                },
                None => {},
            }
            i = i + 1;
        }
        assert(all.take(i as int) =~= all);
    }

    fn add_wildcards(
        &mut self,
        m: &CriteriaMapper,
        publisher_index: usize,
        release: &CratesPublisher,
        items: &Vec<WildcardRef<'_>>,
        Ghost(s): Ghost<Seq<EdgeView>>,
    )
        requires
            m.wf(),
            old(self).models(s),
        ensures
            final(self).models(
                s + wildcard_edges(*m, publisher_index, release@, sorted_map::views(items@)),
            ),
    {
        let ghost all = sorted_map::views(items@);
        let mut i: usize = 0;
        assert(s + wildcard_edges(*m, publisher_index, release@, all.take(0)) =~= s);
        while i < items.len()
            invariant
                i <= items@.len(),
                m.wf(),
                all == sorted_map::views(items@),
                self.models(
                    s + wildcard_edges(*m, publisher_index, release@, all.take(i as int)),
                ),
            decreases items@.len() - i,
        {
            let item: &WildcardRef<'_> = &items[i];
            let ghost done = wildcard_edges(*m, publisher_index, release@, all.take(i as int));
            proof {
                assert(all.take(i + 1).drop_last() =~= all.take(i as int));
                assert(all.take(i + 1).last() == item@);
            }
            if source_eq(&item.entry.source, &release.source) && item.entry.start <= release.when
                && release.when < item.entry.end {
                let criteria: CriteriaSet = m.criteria_from_list(&item.entry.criteria);
                let origin: DeltaEdgeOrigin = DeltaEdgeOrigin::WildcardAudit {
                    import_index: item.import_index,
                    audit_index: item.audit_index,
                    publisher_index,
                };
                let freshness: DeltaEdgeFreshness = DeltaEdgeFreshness::new(
                    item.entry.is_fresh_import,
                    release.is_fresh_import,
                );
                self.add(
                    None,
                    Some(release.version.clone()),
                    criteria,
                    origin,
                    freshness,
                    Ghost(s + done),
                );
                proof {
                    let next = wildcard_edges(*m, publisher_index, release@, all.take(i + 1));
                    assert(s + next =~= (s + done).push(next.last()));
                }
            }
            i = i + 1;
        }
        assert(all.take(i as int) =~= all);
    }

    fn add_trusted(
        &mut self,
        m: &CriteriaMapper,
        publisher_index: usize,
        release: &CratesPublisher,
        trusted: Option<&Vec<TrustEntry>>,
        Ghost(s): Ghost<Seq<EdgeView>>,
        Ghost(all): Ghost<Seq<TrustEntryView>>,
    )
        requires
            m.wf(),
            old(self).models(s),
            match trusted {
                Some(list) => all == sorted_map::views(list@),
                None => all.len() == 0,
            },
        ensures
            final(self).models(s + trusted_edges(*m, publisher_index, release@, all)),
    {
        match trusted {
            Some(list) => {
                let mut i: usize = 0;
                assert(s + trusted_edges(*m, publisher_index, release@, all.take(0)) =~= s);
                while i < list.len()
                    invariant
                        i <= list@.len(),
                        m.wf(),
                        all == sorted_map::views(list@),
                        self.models(
                            s + trusted_edges(*m, publisher_index, release@, all.take(i as int)),
                        ),
                    decreases list@.len() - i,
                {
                    let entry: &TrustEntry = &list[i];
                    let ghost done = trusted_edges(
                        *m,
                        publisher_index,
                        release@,
                        all.take(i as int),
                    );
                    proof {
                        assert(all.take(i + 1).drop_last() =~= all.take(i as int));
                        assert(all.take(i + 1).last() == entry@);
                    }
                    if source_eq(&entry.source, &release.source) && entry.start <= release.when
                        && release.when < entry.end {
                        let criteria: CriteriaSet = m.criteria_from_list(&entry.criteria);
                        let freshness: DeltaEdgeFreshness = DeltaEdgeFreshness::new(
                            release.is_fresh_import,
                            false,
                        );
                        self.add(
                            None,
                            Some(release.version.clone()),
                            criteria,
                            DeltaEdgeOrigin::Trusted { publisher_index },
                            freshness,
                            Ghost(s + done),
                        );
                        proof {
                            let next = trusted_edges(
                                *m,
                                publisher_index,
                                release@,
                                all.take(i + 1),
                            );
                            assert(s + next =~= (s + done).push(next.last()));
                        }
                    }
                    i = i + 1;
                }
                assert(all.take(i as int) =~= all);
            },
            None => {
                assert(s + trusted_edges(*m, publisher_index, release@, all) =~= s);
            },
        }
    }

    fn add_releases(
        &mut self,
        store: &Store,
        m: &CriteriaMapper,
        package: &str,
        items: &Vec<WildcardRef<'_>>,
        Ghost(s): Ghost<Seq<EdgeView>>,
    )
        requires
            m.wf(),
            old(self).models(s),
        ensures
            final(self).models(
                s + release_edges(
                    *m,
                    sorted_map::views_at(store.live().publisher, package@),
                    sorted_map::views(items@),
                    sorted_map::views_at(store.audits.trusted, package@),
                ),
            ),
    {
        let ghost all = sorted_map::views_at(store.live().publisher, package@);
        let ghost wilds = sorted_map::views(items@);
        let ghost trust = sorted_map::views_at(store.audits.trusted, package@);
        let trusted: Option<&Vec<TrustEntry>> = store.audits.trusted.get(package);
        match store.publishers().get(package) {
            Some(list) => {
                let mut i: usize = 0;
                assert(s + release_edges(*m, all.take(0), wilds, trust) =~= s);
                while i < list.len()
                    invariant
                        i <= list@.len(),
                        m.wf(),
                        all == sorted_map::views(list@),
                        wilds == sorted_map::views(items@),
                        match trusted {
                            Some(list) => trust == sorted_map::views(list@),
                            None => trust.len() == 0,
                        },
                        self.models(s + release_edges(*m, all.take(i as int), wilds, trust)),
                    decreases list@.len() - i,
                {
                    let release: &CratesPublisher = &list[i];
                    let ghost done = release_edges(*m, all.take(i as int), wilds, trust);
                    let ghost wild = wildcard_edges(*m, i, release@, wilds);
                    let ghost tr = trusted_edges(*m, i, release@, trust);
                    proof {
                        assert(all.take(i + 1).drop_last() =~= all.take(i as int));
                        assert(all.take(i + 1).last() == release@);
                    }
                    self.add_wildcards(m, i, release, items, Ghost(s + done));
                    self.add_trusted(m, i, release, trusted, Ghost(s + done + wild), Ghost(trust));
                    proof {
                        assert(s + release_edges(*m, all.take(i + 1), wilds, trust) =~= s + done
                            + wild + tr);
                    }
                    i = i + 1;
                }
                assert(all.take(i as int) =~= all);
            },
            None => {
                assert(s + release_edges(*m, all, wilds, trust) =~= s);
            },
        }
    }

    fn add_unpublished(
        &mut self,
        store: &Store,
        m: &CriteriaMapper,
        package: &str,
        Ghost(s): Ghost<Seq<EdgeView>>,
    )
        requires
            m.wf(),
            old(self).models(s),
        ensures
            final(self).models(
                s + unpublished_edges(
                    *m,
                    sorted_map::views_at(store.live().unpublished, package@),
                ),
            ),
    {
        let ghost all = unpublished_edges(
            *m,
            sorted_map::views_at(store.live().unpublished, package@),
        );
        match store.unpublished().get(package) {
            Some(list) => {
                let mut i: usize = 0;
                assert(s + all.take(0) =~= s);
                while i < list.len()
                    invariant
                        i <= list@.len(),
                        m.wf(),
                        all == unpublished_edges(*m, sorted_map::views(list@)),
                        self.models(s + all.take(i as int)),
                    decreases list@.len() - i,
                {
                    let entry: &UnpublishedEntry = &list[i];
                    assert(sorted_map::views(list@)[i as int] == entry@);
                    let freshness: DeltaEdgeFreshness = DeltaEdgeFreshness::new(
                        entry.is_fresh_import,
                        false,
                    );
                    self.add(
                        Some(entry.audited_as.clone()),
                        Some(entry.version.clone()),
                        m.all_criteria(),
                        DeltaEdgeOrigin::Unpublished { unpublished_index: i },
                        freshness,
                        Ghost(s + all.take(i as int)),
                    );
                    assert(s + all.take(i + 1) =~= (s + all.take(i as int)).push(all[i as int]));
                    i = i + 1;
                }
                assert(all.take(i as int) =~= all);
            },
            None => {
                assert(s + all =~= s);
            },
        }
    }

    fn add_exemptions(
        &mut self,
        m: &CriteriaMapper,
        exemptions: Option<&Vec<ExemptedDependency>>,
        Ghost(s): Ghost<Seq<EdgeView>>,
        Ghost(entries): Ghost<Seq<ExemptedDependencyView>>,
    )
        requires
            m.wf(),
            old(self).models(s),
            match exemptions {
                Some(list) => entries == sorted_map::views(list@),
                None => entries.len() == 0,
            },
        ensures
            final(self).models(s + exemption_edges(*m, entries)),
    {
        let ghost all = exemption_edges(*m, entries);
        match exemptions {
            Some(list) => {
                let mut i: usize = 0;
                assert(s + all.take(0) =~= s);
                while i < list.len()
                    invariant
                        i <= list@.len(),
                        m.wf(),
                        all == exemption_edges(*m, sorted_map::views(list@)),
                        self.models(s + all.take(i as int)),
                    decreases list@.len() - i,
                {
                    let entry: &ExemptedDependency = &list[i];
                    assert(sorted_map::views(list@)[i as int] == entry@);
                    let criteria: CriteriaSet = m.criteria_from_list(&entry.criteria);
                    self.add(
                        None,
                        Some(entry.version.clone()),
                        criteria,
                        DeltaEdgeOrigin::Exemption { exemption_index: i },
                        DeltaEdgeFreshness::Stale,
                        Ghost(s + all.take(i as int)),
                    );
                    assert(s + all.take(i + 1) =~= (s + all.take(i as int)).push(all[i as int]));
                    i = i + 1;
                }
                assert(all.take(i as int) =~= all);
            },
            None => {
                assert(s + all =~= s);
            },
        }
    }

    /// Given the store, and a package name, builds up an audit graph. This can
    /// then be searched in order to find a specific path which satisfies a
    /// given criterion. If violations speak against other entries for the
    /// package, these conflicts are returned.
    pub fn build(
        store: &Store,
        criteria_mapper: &CriteriaMapper,
        package: &str,
        extra_audits_file: Option<&AuditsFile>,
    ) -> (r: Result<AuditGraph, Vec<ViolationConflict>>)
        requires
            criteria_mapper.wf(),
        ensures
            ({
                let extra = match extra_audits_file {
                    Some(f) => Some(*f),
                    None => None,
                };
                let conflicts = store_conflicts(*store, *criteria_mapper, package@, extra);
                match r {
                    Ok(graph) => conflicts.len() == 0 && graph.wf() && graph.models(
                        store_edges(*store, *criteria_mapper, package@, extra),
                    ),
                    Err(list) => conflicts.len() > 0 && sorted_map::views(list@) == conflicts,
                }
            }),
    {
        let ghost extra: Option<AuditsFile> = match extra_audits_file {
            Some(f) => Some(*f),
            None => None,
        };
        let files: Vec<FileRef<'_>> = collect_files(store, extra_audits_file);
        let audits: Vec<AuditRef<'_>> = collect_audits(&files, package);
        let wildcards: Vec<WildcardRef<'_>> = collect_wildcards(&files, package);
        let exemptions: Option<&Vec<ExemptedDependency>> = store.config.exemptions.get(package);
        let ghost exempted = sorted_map::views_at(store.config.exemptions, package@);

        let mut graph: AuditGraph = AuditGraph::empty();
        graph.add_audits(criteria_mapper, &audits);
        let ghost s1 = audit_edges(*criteria_mapper, sorted_map::views(audits@));
        graph.add_releases(store, criteria_mapper, package, &wildcards, Ghost(s1));
        let ghost s2 = s1 + release_edges(
            *criteria_mapper,
            sorted_map::views_at(store.live().publisher, package@),
            sorted_map::views(wildcards@),
            sorted_map::views_at(store.audits.trusted, package@),
        );
        graph.add_unpublished(store, criteria_mapper, package, Ghost(s2));
        let ghost s3 = s2 + unpublished_edges(
            *criteria_mapper,
            sorted_map::views_at(store.live().unpublished, package@),
        );
        graph.add_exemptions(criteria_mapper, exemptions, Ghost(s3), Ghost(exempted));

        let conflicts: Vec<ViolationConflict> = find_conflicts(
            criteria_mapper,
            &audits,
            exemptions,
            Ghost(exempted),
        );
        if conflicts.len() > 0 {
            return Err(conflicts);
        }
        assert(sorted_map::views(conflicts@).len() == 0);
        Ok(graph)
    }

    /// Search for a path in this graph which indicates that the given version
    /// satisfies the given criterion. Returns the path used for that proof if
    /// successful, and the versions which could be reached from both the target
    /// and the root if unsuccessful.
    pub fn search(
        &self,
        criteria_idx: usize,
        version: &VetVersion,
        mode: SearchMode,
    ) -> (r: Result<Vec<DeltaEdgeOrigin>, SearchFailure>)
        requires
            self.wf(),
        ensures
            forall|s: Seq<EdgeView>| #[trigger]
                self.models(s) ==> is_search_result(s, criteria_idx as int, version@, mode, r),
    {
        let ghost s = choose|s: Seq<EdgeView>| self.models(s);
        let target: Option<VetVersion> = Some(version.clone());
        // The target is more likely to have a limited graph to traverse.
        let backward = search_for_path(&self.backward_audits, criteria_idx, &target, &None, mode);
        proof {
            self.lemma_queries(s, criteria_idx as int, version@, mode);
        }
        match backward {
            Ok(path) => {
                proof {
                    self.lemma_same_queries(s, criteria_idx as int, version@, mode);
                }
                Ok(path)
            },
            Err(reachable_from_target) => {
                proof {
                    if mode == SearchMode::RegenerateExemptions {
                        search::law_regenerating_reaches_root(
                            to_root(s, criteria_idx as int, version@, mode),
                        );
                    }
                    law_directions_agree(s, criteria_idx as int, version@, mode);
                    self.lemma_same_queries(s, criteria_idx as int, version@, mode);
                }
                let forward = search_for_path(
                    &self.forward_audits,
                    criteria_idx,
                    &None,
                    &target,
                    mode,
                );
                Err(SearchFailure { reachable_from_root: forward.unwrap_err(), reachable_from_target })
            },
        }
    }

    /// The queries of the two directions, over the edges of the graph.
    proof fn lemma_queries(
        &self,
        s: Seq<EdgeView>,
        criteria_idx: int,
        version: VetVersionView,
        mode: SearchMode,
    )
        requires
            self.models(s),
        ensures
            to_root(s, criteria_idx, version, mode) == (Query {
                edges: search::graph_edges(self.backward_audits),
                criteria_idx,
                from: Some(version),
                to: None,
                mode,
            }),
            to_target(s, criteria_idx, version, mode) == (Query {
                edges: search::graph_edges(self.forward_audits),
                criteria_idx,
                from: None,
                to: Some(version),
                mode,
            }),
    {
        assert forall|v: Option<VetVersionView>| backward_from(s, v) == #[trigger] self.backward_audits.edges_from(
            v,
        ) by {
            assert(self.backward().edges_from(v) == backward_from(s, v));
        }
        assert forall|v: Option<VetVersionView>| forward_from(s, v) == #[trigger] self.forward_audits.edges_from(
            v,
        ) by {
            assert(self.forward().edges_from(v) == forward_from(s, v));
        }
        assert(to_root(s, criteria_idx, version, mode).edges =~= search::graph_edges(
            self.backward_audits,
        ));
        assert(to_target(s, criteria_idx, version, mode).edges =~= search::graph_edges(
            self.forward_audits,
        ));
    }

    /// Whatever sequence of edges stands for the graph, the queries are the same.
    proof fn lemma_same_queries(
        &self,
        s: Seq<EdgeView>,
        criteria_idx: int,
        version: VetVersionView,
        mode: SearchMode,
    )
        requires
            self.models(s),
        ensures
            forall|t: Seq<EdgeView>| #[trigger]
                self.models(t) ==> to_root(t, criteria_idx, version, mode) == to_root(
                    s,
                    criteria_idx,
                    version,
                    mode,
                ) && to_target(t, criteria_idx, version, mode) == to_target(
                    s,
                    criteria_idx,
                    version,
                    mode,
                ),
    {
        self.lemma_queries(s, criteria_idx, version, mode);
        assert forall|t: Seq<EdgeView>| #[trigger] self.models(t) implies to_root(
            t,
            criteria_idx,
            version,
            mode,
        ) == to_root(s, criteria_idx, version, mode) && to_target(t, criteria_idx, version, mode)
            == to_target(s, criteria_idx, version, mode) by {
            self.lemma_queries(t, criteria_idx, version, mode);
        }
    }
}

fn violates(
    m: &CriteriaMapper,
    violated: &Vec<String>,
    audited: &Vec<String>,
) -> (r: bool)
    requires
        m.wf(),
    ensures
        r == trips(*m, text::texts(violated@), text::texts(audited@)),
{
    let ghost v = text::texts(violated@);
    let audit_criteria: CriteriaSet = m.criteria_from_list(audited);
    let mut k: usize = 0;
    while k < violated.len()
        invariant
            k <= violated@.len(),
            m.wf(),
            v == text::texts(violated@),
            audit_criteria == criteria::criteria_of(*m, text::texts(audited@)),
            forall|j: int|
                0 <= j < k ==> !audit_criteria.covers(
                    criteria::criteria_of(*m, seq![#[trigger] v[j]]),
                ),
        decreases violated@.len() - k,
    {
        let one: CriteriaSet = m.criteria_from_name(violated[k].as_str());
        assert(v[k as int] == violated@[k as int]@);
        if audit_criteria.contains(&one) {
            return true;
        }
        k = k + 1;
    }
    false
}

fn find_conflicts(
    m: &CriteriaMapper,
    audits: &Vec<AuditRef<'_>>,
    exemptions: Option<&Vec<ExemptedDependency>>,
    Ghost(exempted): Ghost<Seq<ExemptedDependencyView>>,
) -> (r: Vec<ViolationConflict>)
    requires
        m.wf(),
        match exemptions {
            Some(list) => exempted == sorted_map::views(list@),
            None => exempted.len() == 0,
        },
    ensures
        sorted_map::views(r@) == conflicts_of(
            *m,
            sorted_map::views(audits@),
            sorted_map::views(audits@),
            exempted,
        ),
{
    let ghost all = sorted_map::views(audits@);
    let mut r: Vec<ViolationConflict> = Vec::new();
    let mut i: usize = 0;
    assert(sorted_map::views(r@) =~= conflicts_of(*m, all.take(0), all, exempted));
    while i < audits.len()
        invariant
            i <= audits@.len(),
            m.wf(),
            match exemptions {
                Some(list) => exempted == sorted_map::views(list@),
                None => exempted.len() == 0,
            },
            all == sorted_map::views(audits@),
            sorted_map::views(r@) == conflicts_of(*m, all.take(i as int), all, exempted),
        decreases audits@.len() - i,
    {
        let violation: &AuditRef<'_> = &audits[i];
        proof {
            assert(all.take(i + 1).drop_last() =~= all.take(i as int));
            assert(all.take(i + 1).last() == violation@);
        }
        match &violation.entry.kind {
            AuditKind::Violation { violation: range } => {
                let ghost start = sorted_map::views(r@);
                match exemptions {
                    Some(list) => {
                        let mut k: usize = 0;
                        assert(start + exemption_conflicts(*m, violation@, exempted.take(0))
                            =~= start);
                        while k < list.len()
                            invariant
                                k <= list@.len(),
                                m.wf(),
                                exempted == sorted_map::views(list@),
                                violation@.entry.kind == (AuditKindView::Violation {
                                    violation: range.text@,
                                }),
                                sorted_map::views(r@) == start + exemption_conflicts(
                                    *m,
                                    violation@,
                                    exempted.take(k as int),
                                ),
                            decreases list@.len() - k,
                        {
                            let allowed: &ExemptedDependency = &list[k];
                            let ghost before = r@;
                            proof {
                                assert(exempted.take(k + 1).drop_last() =~= exempted.take(
                                    k as int,
                                ));
                                assert(exempted.take(k + 1).last() == allowed@);
                            }
                            if violates(m, &violation.entry.criteria, &allowed.criteria)
                                && range.matches(&allowed.version) {
                                let c: ViolationConflict = ViolationConflict::UnauditedConflict {
                                    violation_source: clone_source(violation.source),
                                    violation: violation.entry.clone(),
                                    exemptions: allowed.clone(),
                                };
                                let ghost cv = c@;
                                r.push(c);
                                proof {
                                    assert(sorted_map::views(r@) =~= sorted_map::views(before).push(
                                        cv,
                                    ));
                                    let next = exemption_conflicts(
                                        *m,
                                        violation@,
                                        exempted.take(k + 1),
                                    );
                                    assert(next.last() == cv);
                                    assert(start + next =~= sorted_map::views(before).push(cv));
                                }
                            }
                            k = k + 1;
                        }
                        assert(exempted.take(k as int) =~= exempted);
                    },
                    None => {
                        assert(start + exemption_conflicts(*m, violation@, exempted) =~= start);
                    },
                }
                let ghost middle = sorted_map::views(r@);
                let mut k: usize = 0;
                assert(middle + audit_conflicts(*m, violation@, all.take(0)) =~= middle);
                while k < audits.len()
                    invariant
                        k <= audits@.len(),
                        m.wf(),
                        all == sorted_map::views(audits@),
                        violation@.entry.kind == (AuditKindView::Violation {
                            violation: range.text@,
                        }),
                        sorted_map::views(r@) == middle + audit_conflicts(
                            *m,
                            violation@,
                            all.take(k as int),
                        ),
                    decreases audits@.len() - k,
                {
                    let audit: &AuditRef<'_> = &audits[k];
                    let ghost before = r@;
                    proof {
                        assert(all.take(k + 1).drop_last() =~= all.take(k as int));
                        assert(all.take(k + 1).last() == audit@);
                    }
                    if violates(m, &violation.entry.criteria, &audit.entry.criteria) {
                        let hit: bool = match &audit.entry.kind {
                            AuditKind::Full { version } => range.matches(version),
                            AuditKind::Delta { from, to } => range.matches(from) || range.matches(
                                to,
                            ),
                            AuditKind::Violation { violation: _ } => false,
                        };
                        if hit {
                            let c: ViolationConflict = ViolationConflict::AuditConflict {
                                violation_source: clone_source(violation.source),
                                violation: violation.entry.clone(),
                                audit_source: clone_source(audit.source),
                                audit: audit.entry.clone(),
                            };
                            let ghost cv = c@;
                            r.push(c);
                            proof {
                                assert(sorted_map::views(r@) =~= sorted_map::views(before).push(
                                    cv,
                                ));
                                let next = audit_conflicts(*m, violation@, all.take(k + 1));
                                assert(next.last() == cv);
                                assert(middle + next =~= sorted_map::views(before).push(cv));
                            }
                        }
                    }
                    k = k + 1;
                }
                assert(all.take(k as int) =~= all);
            },
            _ => {},
        }
        i = i + 1;
    }
    assert(all.take(i as int) =~= all);
    r
}

} // verus!
