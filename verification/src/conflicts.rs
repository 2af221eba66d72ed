//! What contradicts what.

use vstd::prelude::*;
use crate::audit_graph;
use crate::audit_graph::{AuditGraph, AuditItem, ViolationConflict, ViolationConflictView};
use crate::criteria;
use crate::criteria::CriteriaMapper;
use crate::entries;
use crate::records;
use crate::records::{
    AuditEntryView, AuditKindView, AuditsFile, ExemptedDependencyView, ImportsFile, Store,
};
use crate::sorted_map;
use crate::version;
use crate::version::VetVersionView;

verus! {

/// The imports that count: those that were fetched, or else those that are stored.
pub open spec fn imports_of(store: Store) -> ImportsFile {
    match store.live_imports {
        Some(fetched) => fetched,
        None => store.imports,
    }
}

/// Whether an audit of a package is in a file: in one that is imported from
/// `source`, or in an own one or an extra one.
pub open spec fn is_audited(
    store: Store,
    extra: Option<AuditsFile>,
    name: Seq<char>,
    source: Option<Seq<char>>,
    audit: AuditEntryView,
) -> bool {
    match source {
        Some(source) => exists|f: int|
            0 <= f < imports_of(store).audits.entries().len() && (
            #[trigger] imports_of(store).audits.entries()[f]).0@ == source && sorted_map::views_at(
                imports_of(store).audits.entries()[f].1.audits,
                name,
            ).contains(audit),
        None => sorted_map::views_at(store.audits.audits, name).contains(audit) || (extra matches Some(
            file,
        ) && sorted_map::views_at(file.audits, name).contains(audit)),
    }
}

/// Whether a version is in a range. The revision does not count.
pub open spec fn is_within(range: Seq<char>, v: VetVersionView) -> bool {
    records::requirement_met(range, version::semver_text(v.semver)) == Some(true)
}

/// Whether criteria hold all that one of some violated criteria stands for.
pub open spec fn claims_violated(
    m: CriteriaMapper,
    violated: Seq<Seq<char>>,
    claimed: Seq<Seq<char>>,
) -> bool {
    exists|c: Seq<char>| #[trigger]
        violated.contains(c) && forall|i: int| #[trigger]
            criteria::criteria_of(m, seq![c]).has(i) ==> criteria::criteria_of(m, claimed).has(i)
}

/// Whether two entries contradict each other: a violation and an audit, each in
/// any file, or a violation and an exemption. An audit of a change is about both
/// of its versions.
pub open spec fn is_contradiction(
    store: Store,
    extra: Option<AuditsFile>,
    m: CriteriaMapper,
    name: Seq<char>,
    c: ViolationConflictView,
) -> bool {
    match c {
        ViolationConflictView::UnauditedConflict { violation_source, violation, exemptions } => {
            &&& is_audited(store, extra, name, violation_source, violation)
            &&& sorted_map::views_at(store.config.exemptions, name).contains(exemptions)
            &&& violation.kind matches AuditKindView::Violation { violation: range } && is_within(
                range,
                exemptions.version,
            )
            &&& claims_violated(m, violation.criteria, exemptions.criteria)
        },
        ViolationConflictView::AuditConflict {
            violation_source,
            violation,
            audit_source,
            audit,
        } => {
            &&& is_audited(store, extra, name, violation_source, violation)
            &&& is_audited(store, extra, name, audit_source, audit)
            &&& violation.kind matches AuditKindView::Violation { violation: range }
                && (match audit.kind {
                AuditKindView::Full { version } => is_within(range, version),
                AuditKindView::Delta { from, to } => is_within(range, from) || is_within(range, to),
                AuditKindView::Violation { .. } => false,
            })
            &&& claims_violated(m, violation.criteria, audit.criteria)
        },
    }
}

/// The audits of all files are those that are audited.
proof fn lemma_items(
    store: Store,
    extra: Option<AuditsFile>,
    name: Seq<char>,
    source: Option<Seq<char>>,
    audit: AuditEntryView,
)
    ensures
        is_audited(store, extra, name, source, audit) <==> exists|n: int|
            0 <= n < audit_graph::all_audits(audit_graph::source_files(store, extra), name).len()
                && (#[trigger] audit_graph::all_audits(
                audit_graph::source_files(store, extra),
                name,
            )[n]).source == source && audit_graph::all_audits(
                audit_graph::source_files(store, extra),
                name,
            )[n].entry == audit,
{
    let files = audit_graph::source_files(store, extra);
    let items = audit_graph::all_audits(files, name);
    let imports = imports_of(store).audits.entries();
    if is_audited(store, extra, name, source, audit) {
        let f: int = match source {
            Some(source) => choose|f: int|
                0 <= f < imports.len() && (#[trigger] imports[f]).0@ == source
                    && sorted_map::views_at(imports[f].1.audits, name).contains(audit),
            None => if sorted_map::views_at(store.audits.audits, name).contains(audit) {
                imports.len() as int
            } else {
                imports.len() as int + 1
            },
        };
        let list = sorted_map::views_at(files[f].file.audits, name);
        let j = choose|j: int| 0 <= j < list.len() && list[j] == audit;
        assert(audit_graph::file_audits(files[f], name)[j].entry == audit);
        let n = entries::lemma_all_audits_has(files, name, f, j);
        assert(items[n].source == source && items[n].entry == audit);
    }
    if exists|n: int|
        0 <= n < items.len() && (#[trigger] items[n]).source == source && items[n].entry == audit {
        let n = choose|n: int|
            0 <= n < items.len() && (#[trigger] items[n]).source == source && items[n].entry
                == audit;
        let (f, j) = entries::lemma_all_audits_from(files, name, n);
        let list = sorted_map::views_at(files[f].file.audits, name);
        assert(list[j] == audit);
        assert(list.contains(audit));
        if f < imports.len() {
            assert(imports[f].0@ == source->0);
        }
    }
}

proof fn lemma_claims(m: CriteriaMapper, violated: Seq<Seq<char>>, claimed: Seq<Seq<char>>)
    ensures
        audit_graph::trips(m, violated, claimed) == claims_violated(m, violated, claimed),
{
    if audit_graph::trips(m, violated, claimed) {
        let k = choose|k: int|
            0 <= k < violated.len() && criteria::criteria_of(m, claimed).covers(
                criteria::criteria_of(m, seq![#[trigger] violated[k]]),
            );
        let c = violated[k];
        assert(violated.contains(c));
        assert forall|i: int| #[trigger] criteria::criteria_of(m, seq![c]).has(i) implies
            criteria::criteria_of(m, claimed).has(i) by {}
    }
    if claims_violated(m, violated, claimed) {
        let c = choose|c: Seq<char>| #[trigger]
            violated.contains(c) && forall|i: int| #[trigger]
                criteria::criteria_of(m, seq![c]).has(i) ==> criteria::criteria_of(m, claimed).has(
                    i,
                );
        let k = choose|k: int| 0 <= k < violated.len() && violated[k] == c;
        assert(criteria::criteria_of(m, claimed).covers(criteria::criteria_of(m, seq![violated[k]])));
    }
}

proof fn lemma_exemption_listed(
    m: CriteriaMapper,
    v: AuditItem,
    exemptions: Seq<ExemptedDependencyView>,
    c: ViolationConflictView,
)
    requires
        v.entry.kind is Violation,
    ensures
        audit_graph::exemption_conflicts(m, v, exemptions).contains(c) <==> exists|k: int|
            0 <= k < exemptions.len() && c == (ViolationConflictView::UnauditedConflict {
                violation_source: v.source,
                violation: v.entry,
                exemptions: #[trigger] exemptions[k],
            }) && claims_violated(m, v.entry.criteria, exemptions[k].criteria) && is_within(
                v.entry.kind->violation,
                exemptions[k].version,
            ),
    decreases exemptions.len(),
{
    let all = audit_graph::exemption_conflicts(m, v, exemptions);
    if exemptions.len() > 0 {
        let front = exemptions.drop_last();
        let rest = audit_graph::exemption_conflicts(m, v, front);
        let e = exemptions.last();
        lemma_exemption_listed(m, v, front, c);
        lemma_claims(m, v.entry.criteria, e.criteria);
        if all.contains(c) {
            let n = choose|n: int| 0 <= n < all.len() && all[n] == c;
            if n < rest.len() {
                assert(rest[n] == c);
                assert(rest.contains(c));
                let k = choose|k: int|
                    0 <= k < front.len() && c == (ViolationConflictView::UnauditedConflict {
                        violation_source: v.source,
                        violation: v.entry,
                        exemptions: #[trigger] front[k],
                    }) && claims_violated(m, v.entry.criteria, front[k].criteria) && is_within(
                        v.entry.kind->violation,
                        front[k].version,
                    );
                assert(exemptions[k] == front[k]);
            } else {
                assert(exemptions[exemptions.len() - 1] == e);
            }
        }
        if exists|k: int|
            0 <= k < exemptions.len() && c == (ViolationConflictView::UnauditedConflict {
                violation_source: v.source,
                violation: v.entry,
                exemptions: #[trigger] exemptions[k],
            }) && claims_violated(m, v.entry.criteria, exemptions[k].criteria) && is_within(
                v.entry.kind->violation,
                exemptions[k].version,
            ) {
            let k = choose|k: int|
                0 <= k < exemptions.len() && c == (ViolationConflictView::UnauditedConflict {
                    violation_source: v.source,
                    violation: v.entry,
                    exemptions: #[trigger] exemptions[k],
                }) && claims_violated(m, v.entry.criteria, exemptions[k].criteria) && is_within(
                    v.entry.kind->violation,
                    exemptions[k].version,
                );
            if k < front.len() {
                assert(front[k] == exemptions[k]);
                assert(rest.contains(c));
                let n = choose|n: int| 0 <= n < rest.len() && rest[n] == c;
                assert(all[n] == c);
            } else {
                assert(all[all.len() - 1] == c);
            }
        }
    }
}

/// Whether an audit is about a version in a range.
spec fn is_about(range: Seq<char>, kind: AuditKindView) -> bool {
    match kind {
        AuditKindView::Full { version } => is_within(range, version),
        AuditKindView::Delta { from, to } => is_within(range, from) || is_within(range, to),
        AuditKindView::Violation { .. } => false,
    }
}

/// Whether a violation and an audit contradict each other.
spec fn is_pair(m: CriteriaMapper, v: AuditItem, a: AuditItem, c: ViolationConflictView) -> bool {
    &&& c == (ViolationConflictView::AuditConflict {
        violation_source: v.source,
        violation: v.entry,
        audit_source: a.source,
        audit: a.entry,
    })
    &&& claims_violated(m, v.entry.criteria, a.entry.criteria)
    &&& is_about(v.entry.kind->violation, a.entry.kind)
}

proof fn lemma_audit_listed(
    m: CriteriaMapper,
    v: AuditItem,
    items: Seq<AuditItem>,
    c: ViolationConflictView,
)
    requires
        v.entry.kind is Violation,
    ensures
        audit_graph::audit_conflicts(m, v, items).contains(c) <==> exists|k: int|
            0 <= k < items.len() && is_pair(m, v, #[trigger] items[k], c),
    decreases items.len(),
{
    let all = audit_graph::audit_conflicts(m, v, items);
    if items.len() > 0 {
        let front = items.drop_last();
        let rest = audit_graph::audit_conflicts(m, v, front);
        let a = items.last();
        lemma_audit_listed(m, v, front, c);
        lemma_claims(m, v.entry.criteria, a.entry.criteria);
        if all.contains(c) {
            let n = choose|n: int| 0 <= n < all.len() && all[n] == c;
            if n < rest.len() {
                assert(rest[n] == c);
                assert(rest.contains(c));
                let k = choose|k: int| 0 <= k < front.len() && is_pair(m, v, #[trigger] front[k], c);
                assert(items[k] == front[k]);
            } else {
                assert(is_pair(m, v, items[items.len() - 1], c));
            }
        }
        if exists|k: int| 0 <= k < items.len() && is_pair(m, v, #[trigger] items[k], c) {
            let k = choose|k: int| 0 <= k < items.len() && is_pair(m, v, #[trigger] items[k], c);
            if k < front.len() {
                assert(front[k] == items[k]);
                assert(rest.contains(c));
                let n = choose|n: int| 0 <= n < rest.len() && rest[n] == c;
                assert(all[n] == c);
            } else {
                assert(all[all.len() - 1] == c);
            }
        }
    }
}

/// Whether one violation leads to a conflict.
spec fn is_listed_for(
    m: CriteriaMapper,
    v: AuditItem,
    items: Seq<AuditItem>,
    exemptions: Seq<ExemptedDependencyView>,
    c: ViolationConflictView,
) -> bool {
    v.entry.kind is Violation && (audit_graph::exemption_conflicts(m, v, exemptions).contains(c)
        || audit_graph::audit_conflicts(m, v, items).contains(c))
}

proof fn lemma_listed(
    m: CriteriaMapper,
    violations: Seq<AuditItem>,
    items: Seq<AuditItem>,
    exemptions: Seq<ExemptedDependencyView>,
    c: ViolationConflictView,
)
    ensures
        audit_graph::conflicts_of(m, violations, items, exemptions).contains(c) <==> exists|n: int|
            0 <= n < violations.len() && is_listed_for(
                m,
                #[trigger] violations[n],
                items,
                exemptions,
                c,
            ),
    decreases violations.len(),
{
    let all = audit_graph::conflicts_of(m, violations, items, exemptions);
    if violations.len() > 0 {
        let front = violations.drop_last();
        let rest = audit_graph::conflicts_of(m, front, items, exemptions);
        let v = violations.last();
        let x = audit_graph::exemption_conflicts(m, v, exemptions);
        let y = audit_graph::audit_conflicts(m, v, items);
        lemma_listed(m, front, items, exemptions, c);
        if all.contains(c) {
            let n = choose|n: int| 0 <= n < all.len() && all[n] == c;
            if n < rest.len() {
                assert(rest[n] == c);
                assert(rest.contains(c));
                let k = choose|k: int|
                    0 <= k < front.len() && is_listed_for(
                        m,
                        #[trigger] front[k],
                        items,
                        exemptions,
                        c,
                    );
                assert(violations[k] == front[k]);
            } else {
                if n < rest.len() + x.len() {
                    assert(x[n - rest.len()] == c);
                } else {
                    assert(y[n - rest.len() - x.len()] == c);
                }
                assert(is_listed_for(m, violations[violations.len() - 1], items, exemptions, c));
            }
        }
        if exists|n: int|
            0 <= n < violations.len() && is_listed_for(
                m,
                #[trigger] violations[n],
                items,
                exemptions,
                c,
            ) {
            let n = choose|n: int|
                0 <= n < violations.len() && is_listed_for(
                    m,
                    #[trigger] violations[n],
                    items,
                    exemptions,
                    c,
                );
            if n < front.len() {
                assert(front[n] == violations[n]);
                assert(rest.contains(c));
                let k = choose|k: int| 0 <= k < rest.len() && rest[k] == c;
                assert(all[k] == c);
            } else if x.contains(c) {
                let k = choose|k: int| 0 <= k < x.len() && x[k] == c;
                assert(all[rest.len() + k] == c);
            } else {
                let k = choose|k: int| 0 <= k < y.len() && y[k] == c;
                assert(all[rest.len() + x.len() + k] == c);
            }
        }
    }
}

/// The conflicts that are listed for a package are exactly its contradictions:
/// every violation is held against every audit of every file, its own and imported
/// ones alike, and against every exemption.
pub proof fn law_conflicts_are_contradictions(
    store: Store,
    extra: Option<AuditsFile>,
    m: CriteriaMapper,
    name: Seq<char>,
    c: ViolationConflictView,
)
    ensures
        audit_graph::store_conflicts(store, m, name, extra).contains(c) <==> is_contradiction(
            store,
            extra,
            m,
            name,
            c,
        ),
{
    let items = audit_graph::all_audits(audit_graph::source_files(store, extra), name);
    let exemptions = sorted_map::views_at(store.config.exemptions, name);
    lemma_listed(m, items, items, exemptions, c);
    match c {
        ViolationConflictView::UnauditedConflict {
            violation_source,
            violation,
            exemptions: e,
        } => {
            lemma_items(store, extra, name, violation_source, violation);
            assert forall|n: int| 0 <= n < items.len() && (
            #[trigger] items[n]).entry.kind is Violation implies (is_listed_for(
                m,
                items[n],
                items,
                exemptions,
                c,
            ) <==> items[n].source == violation_source && items[n].entry == violation
                && exemptions.contains(e) && claims_violated(m, violation.criteria, e.criteria)
                && is_within(violation.kind->violation, e.version)) by {
                lemma_exemption_listed(m, items[n], exemptions, c);
                lemma_audit_listed(m, items[n], items, c);
                if exemptions.contains(e) {
                    let k = choose|k: int| 0 <= k < exemptions.len() && exemptions[k] == e;
                    assert(exemptions[k] == e);
                }
            }
        },
        ViolationConflictView::AuditConflict {
            violation_source,
            violation,
            audit_source,
            audit,
        } => {
            lemma_items(store, extra, name, violation_source, violation);
            lemma_items(store, extra, name, audit_source, audit);
            assert forall|n: int| 0 <= n < items.len() && (
            #[trigger] items[n]).entry.kind is Violation implies (is_listed_for(
                m,
                items[n],
                items,
                exemptions,
                c,
            ) <==> items[n].source == violation_source && items[n].entry == violation
                && is_audited(store, extra, name, audit_source, audit) && claims_violated(
                m,
                violation.criteria,
                audit.criteria,
            ) && is_about(violation.kind->violation, audit.kind)) by {
                lemma_exemption_listed(m, items[n], exemptions, c);
                lemma_audit_listed(m, items[n], items, c);
                if items[n].source == violation_source && items[n].entry == violation && is_audited(
                    store,
                    extra,
                    name,
                    audit_source,
                    audit,
                ) && claims_violated(m, violation.criteria, audit.criteria) && is_about(
                    violation.kind->violation,
                    audit.kind,
                ) {
                    let k = choose|k: int|
                        0 <= k < items.len() && (#[trigger] items[k]).source == audit_source
                            && items[k].entry == audit;
                    assert(is_pair(m, items[n], items[k], c));
                }
            }
        },
    }
}

/// The graph of a package is built exactly if nothing contradicts; otherwise all
/// contradictions are listed, and nothing else.
pub proof fn law_graph_is_built_without_contradictions(
    store: &Store,
    m: &CriteriaMapper,
    name: &str,
    extra: Option<&AuditsFile>,
    r: Result<AuditGraph, Vec<ViolationConflict>>,
)
    requires
        call_ensures(AuditGraph::build, (store, m, name, extra), r),
    ensures
        ({
            let file = match extra {
                Some(file) => Some(*file),
                None => None,
            };
            match r {
                Ok(_) => forall|c: ViolationConflictView|
                    !(#[trigger] is_contradiction(*store, file, *m, name@, c)),
                Err(list) => list@.len() > 0 && forall|c: ViolationConflictView|
                    sorted_map::views(list@).contains(c) <==> #[trigger] is_contradiction(
                        *store,
                        file,
                        *m,
                        name@,
                        c,
                    ),
            }
        }),
{
    let file = match extra {
        Some(file) => Some(*file),
        None => None,
    };
    let all = audit_graph::store_conflicts(*store, *m, name@, file);
    assert forall|c: ViolationConflictView| all.contains(c) <==> #[trigger] is_contradiction(
        *store,
        file,
        *m,
        name@,
        c,
    ) by {
        law_conflicts_are_contradictions(*store, file, *m, name@, c);
    }
    assert forall|c: ViolationConflictView| all.len() == 0 implies !all.contains(c) by {}
    if let Err(list) = r {
        assert(sorted_map::views(list@).len() == list@.len());
    }
}

} // verus!
