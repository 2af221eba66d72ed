//! What an update of the store keeps.

use vstd::prelude::*;
use guppy::graph::cargo::CargoResolverVersion;
use guppy::graph::PackageGraph;
use crate::audit_graph;
use crate::audit_graph::EdgeView;
use crate::criteria;
use crate::criteria::{CriteriaMapper, CriteriaSet};
use crate::demands;
use crate::edges::{DeltaEdgeOriginView, RequiredEntryView, SearchMode};
use crate::entries;
use crate::implications;
use crate::keys;
use crate::order;
use crate::order::Keyed;
use crate::packages::Package;
use crate::records;
use crate::records::{
    CriteriaEntry, ExemptedDependency, ExemptedDependencyView, Store, UnpublishedEntry,
};
use crate::required;
use crate::required::Demand;
use crate::resolve;
use crate::retain;
use crate::retain::Imported;
use crate::search;
use crate::search::{NodeView, Query};
use crate::sorted_map;
use crate::sorted_map::SortedMap;
use crate::update;
use crate::update::{StoreUpdates, UpdateBasis, UpdateModel, UpdateModes};
use crate::version::VetVersionView;

verus! {

pub proof fn lemma_same_items<V>(a: Seq<V>, b: Seq<V>, x: V)
    requires
        a.to_multiset() == b.to_multiset(),
        a.contains(x),
    ensures
        b.contains(x),
{
    broadcast use vstd::seq_lib::group_to_multiset_ensures;

    assert(a.to_multiset().count(x) > 0);
    assert(b.to_multiset().count(x) > 0);
}

/// An entry whose flag is set is kept.
pub proof fn lemma_retained<T: Imported>(
    r: SortedMap<Vec<T>>,
    map: SortedMap<Vec<T>>,
    flags: spec_fn(Seq<char>) -> Seq<bool>,
    name: Seq<char>,
    j: int,
) -> (n: int)
    requires
        retain::retains(r, map, flags),
        0 <= j < sorted_map::views_at(map, name).len(),
        flags(name)[j],
    ensures
        0 <= n < sorted_map::views_at(r, name).len(),
        sorted_map::views_at(r, name)[n] == T::imported(sorted_map::views_at(map, name)[j]),
{
    let list = sorted_map::views_at(map, name);
    let wanted = retain::kept_imports::<T>(list, flags(name));
    let k = retain::lemma_kept_has(list, flags(name), j);
    let x = T::imported(list[j]);
    assert(wanted[k] == x);
    assert(wanted.contains(x));
    assert(retain::is_listed(r.get_spec(name), wanted));
    let l = r.get_spec(name)->0;
    assert(order::is_arrangement(l@, wanted));
    let v = l@.map_values(|y: T| y@);
    lemma_same_items(wanted, v, x);
    let n = choose|n: int| 0 <= n < v.len() && v[n] == x;
    assert(sorted_map::views_at(r, name) =~= v);
    n
}

pub proof fn lemma_dedup_has<V>(s: Seq<V>, j: int) -> (n: int)
    requires
        0 <= j < s.len(),
    ensures
        0 <= n < retain::dedup(s).len(),
        retain::dedup(s)[n] == s[j],
    decreases s.len(),
{
    if s.len() == 1 {
        0
    } else {
        let t = s.drop_last();
        if j < s.len() - 1 {
            let n = lemma_dedup_has(t, j);
            n
        } else if s[s.len() - 2] == s.last() {
            lemma_dedup_has(t, j - 1)
        } else {
            retain::dedup(s).len() - 1
        }
    }
}

/// A store that was brought up to date, as it is read again without fetching
/// imports.
pub open spec fn is_updated(model: UpdateModel, after: Store) -> bool {
    let before = model.store;
    &&& model.updates(
        (StoreUpdates {
            audits: after.audits.audits,
            imports: after.imports,
            exemptions: after.config.exemptions,
        }),
    )
    &&& after.audits.wildcard_audits == before.audits.wildcard_audits
    &&& after.audits.trusted == before.audits.trusted
    &&& after.live_imports is None
}

proof fn lemma_provides_in(
    part: Seq<EdgeView>,
    s: Seq<EdgeView>,
    start: int,
    from: Option<VetVersionView>,
    to: Option<VetVersionView>,
    i: int,
)
    requires
        entries::provides(part, from, to, i),
        0 <= start,
        start + part.len() <= s.len(),
        forall|n: int| 0 <= n < part.len() ==> #[trigger] part[n] == s[start + n],
    ensures
        entries::provides(s, from, to, i),
{
    let n = choose|n: int|
        0 <= n < part.len() && (#[trigger] part[n]).from == from && part[n].to == to
            && part[n].criteria.has(i);
    assert(part[n] == s[start + n]);
}

/// What a needed audit provides, it provides after an update too.
proof fn lemma_audit_kept(model: UpdateModel, after: Store, name: Seq<char>, n: int, i: int)
    requires
        is_updated(model, after),
        model.required.get_spec(name) matches Some(r) && r is Some,
        0 <= n < audit_graph::audit_edges(
            model.mapper,
            audit_graph::all_audits(audit_graph::source_files(model.store, None), name),
        ).len(),
        ({
            let e = audit_graph::audit_edges(
                model.mapper,
                audit_graph::all_audits(audit_graph::source_files(model.store, None), name),
            )[n];
            e.criteria.has(i) && forall|x: RequiredEntryView| #[trigger]
                required::needs(e.origin, x) ==> model.needs(name, x)
        }),
    ensures
        ({
            let e = audit_graph::audit_edges(
                model.mapper,
                audit_graph::all_audits(audit_graph::source_files(model.store, None), name),
            )[n];
            entries::provides(
                audit_graph::audit_edges(
                    model.mapper,
                    audit_graph::all_audits(audit_graph::source_files(after, None), name),
                ),
                e.from,
                e.to,
                i,
            )
        }),
{
    let m = model.mapper;
    let files = audit_graph::source_files(model.store, None);
    let new_files = audit_graph::source_files(after, None);
    let items = audit_graph::all_audits(files, name);
    let e = audit_graph::audit_edges(m, items)[n];
    let k = entries::lemma_audit_edges_from(m, items, n);
    let (f, j) = entries::lemma_all_audits_from(files, name, k);
    let live = model.store.live().audits;
    let list = sorted_map::views_at(files[f].file.audits, name);
    live.lemma_fits();
    sorted_map::lemma_list_fits(files[f].file.audits, name);
    assert(after.imports.audits.keys().len() == live.keys().len());
    assert(new_files.len() == files.len());
    let g = new_files[f];
    let new_list = sorted_map::views_at(g.file.audits, name);
    let x = if f < live.entries().len() {
        let need = RequiredEntryView::Audit { import_index: f as usize, audit_index: j as usize };
        assert(required::needs(e.origin, need));
        assert(model.audit_flags(f, name)[j]);
        assert(model.updates_import(f, after.imports.audits.entries()[f].1));
        lemma_retained(
            g.file.audits,
            files[f].file.audits,
            |name: Seq<char>| model.audit_flags(f, name),
            name,
            j,
        )
    } else {
        let need = RequiredEntryView::LocalAudit { audit_index: j as usize };
        assert(required::needs(e.origin, need));
        assert(model.local_flags(name)[j]);
        retain::lemma_kept_has(list, model.local_flags(name), j)
    };
    assert(audit_graph::file_audits(g, name)[x].entry == new_list[x]);
    let y = entries::lemma_all_audits_has(new_files, name, f, x);
    let z = entries::lemma_audit_edges_has(m, audit_graph::all_audits(new_files, name), y);
}

/// A needed wildcard audit is there after an update too.
proof fn lemma_wildcard_kept(model: UpdateModel, after: Store, name: Seq<char>, k: int) -> (x: int)
    requires
        is_updated(model, after),
        model.required.get_spec(name) matches Some(r) && r is Some,
        0 <= k < audit_graph::all_wildcards(
            audit_graph::source_files(model.store, None),
            name,
        ).len(),
        ({
            let item = audit_graph::all_wildcards(
                audit_graph::source_files(model.store, None),
                name,
            )[k];
            item.import_index matches Some(f) ==> model.needs(
                name,
                RequiredEntryView::WildcardAudit { import_index: f, audit_index: item.audit_index },
            )
        }),
    ensures
        0 <= x < audit_graph::all_wildcards(audit_graph::source_files(after, None), name).len(),
        ({
            let a = audit_graph::all_wildcards(
                audit_graph::source_files(model.store, None),
                name,
            )[k].entry;
            let b = audit_graph::all_wildcards(
                audit_graph::source_files(after, None),
                name,
            )[x].entry;
            a.source == b.source && a.start == b.start && a.end == b.end && a.criteria
                == b.criteria
        }),
{
    let files = audit_graph::source_files(model.store, None);
    let new_files = audit_graph::source_files(after, None);
    let (f, j) = entries::lemma_all_wildcards_from(files, name, k);
    let live = model.store.live().audits;
    let list = sorted_map::views_at(files[f].file.wildcard_audits, name);
    live.lemma_fits();
    sorted_map::lemma_list_fits(files[f].file.wildcard_audits, name);
    assert(after.imports.audits.keys().len() == live.keys().len());
    assert(new_files.len() == files.len());
    let g = new_files[f];
    let new_list = sorted_map::views_at(g.file.wildcard_audits, name);
    let x = if f < live.entries().len() {
        assert(model.wildcard_flags(f, name)[j]);
        assert(model.updates_import(f, after.imports.audits.entries()[f].1));
        lemma_retained(
            g.file.wildcard_audits,
            files[f].file.wildcard_audits,
            |name: Seq<char>| model.wildcard_flags(f, name),
            name,
            j,
        )
    } else {
        j
    };
    assert(audit_graph::file_wildcards(g, name)[x].entry == new_list[x]);
    entries::lemma_all_wildcards_has(new_files, name, f, x)
}

/// The edges of the releases of a package.
spec fn releases_of(store: Store, m: CriteriaMapper, name: Seq<char>) -> Seq<EdgeView> {
    audit_graph::release_edges(
        m,
        sorted_map::views_at(store.live().publisher, name),
        audit_graph::all_wildcards(audit_graph::source_files(store, None), name),
        sorted_map::views_at(store.audits.trusted, name),
    )
}

/// What a needed release provides, it provides after an update too.
proof fn lemma_release_kept(model: UpdateModel, after: Store, name: Seq<char>, n: int, i: int)
    requires
        is_updated(model, after),
        model.required.get_spec(name) matches Some(r) && r is Some,
        0 <= n < releases_of(model.store, model.mapper, name).len(),
        ({
            let e = releases_of(model.store, model.mapper, name)[n];
            e.criteria.has(i) && forall|x: RequiredEntryView| #[trigger]
                required::needs(e.origin, x) ==> model.needs(name, x)
        }),
    ensures
        ({
            let e = releases_of(model.store, model.mapper, name)[n];
            entries::provides(releases_of(after, model.mapper, name), e.from, e.to, i)
        }),
{
    let m = model.mapper;
    let releases = sorted_map::views_at(model.store.live().publisher, name);
    let new_releases = sorted_map::views_at(after.live().publisher, name);
    let items = audit_graph::all_wildcards(audit_graph::source_files(model.store, None), name);
    let new_items = audit_graph::all_wildcards(audit_graph::source_files(after, None), name);
    let trusted = sorted_map::views_at(model.store.audits.trusted, name);
    let e = releases_of(model.store, m, name)[n];
    sorted_map::lemma_list_fits(model.store.live().publisher, name);
    let p = entries::lemma_release_edges_from(m, releases, items, trusted, n);
    let need = RequiredEntryView::Publisher { publisher_index: p as usize };
    assert(required::needs(e.origin, need));
    assert(model.publisher_flags(name)[p]);
    let q = lemma_retained(
        after.imports.publisher,
        model.store.live().publisher,
        |name: Seq<char>| model.publisher_flags(name),
        name,
        p,
    );
    assert(new_releases[q].version == releases[p].version);
    if exists|k: int|
        0 <= k < items.len() && entries::is_wildcard_edge(m, releases[p], p, #[trigger] items[k], e) {
        let k = choose|k: int|
            0 <= k < items.len() && entries::is_wildcard_edge(m, releases[p], p, #[trigger] items[k], e);
        if let Some(f) = items[k].import_index {
            assert(required::needs(
                e.origin,
                RequiredEntryView::WildcardAudit {
                    import_index: f,
                    audit_index: items[k].audit_index,
                },
            ));
        }
        let x = lemma_wildcard_kept(model, after, name, k);
        entries::lemma_release_wildcard_has(m, new_releases, new_items, trusted, q, x, i);
    } else {
        let k = choose|k: int|
            0 <= k < trusted.len() && entries::is_trusted_edge(m, releases[p], p, #[trigger] trusted[k], e);
        entries::lemma_release_trusted_has(m, new_releases, new_items, trusted, q, k, i);
    }
}

/// What a needed unpublished entry provides, it provides after an update too.
proof fn lemma_unpublished_kept(model: UpdateModel, after: Store, name: Seq<char>, n: int, i: int)
    requires
        is_updated(model, after),
        model.required.get_spec(name) matches Some(r) && r is Some,
        0 <= n < sorted_map::views_at(model.store.live().unpublished, name).len(),
        criteria::all_set(model.mapper.names@.len() as int).has(i),
        model.needs(name, RequiredEntryView::Unpublished { unpublished_index: n as usize }),
    ensures
        ({
            let u = sorted_map::views_at(model.store.live().unpublished, name)[n];
            entries::provides(
                audit_graph::unpublished_edges(
                    model.mapper,
                    sorted_map::views_at(after.live().unpublished, name),
                ),
                Some(u.audited_as),
                Some(u.version),
                i,
            )
        }),
{
    let list = sorted_map::views_at(model.store.live().unpublished, name);
    let flags = model.unpublished_flags(name);
    let wanted = retain::kept_imports::<UnpublishedEntry>(list, flags);
    let u = list[n];
    let x = UnpublishedEntry::imported(u);
    assert(flags[n]);
    let k = retain::lemma_kept_has(list, flags, n);
    assert(wanted[k] == x);
    assert(wanted.contains(x));
    let found = after.imports.unpublished.get_spec(name);
    assert(update::is_listed_once(found, wanted));
    let l = found->0;
    let s = choose|s: Seq<UnpublishedEntry>| #[trigger]
        order::is_arrangement(s, wanted) && sorted_map::views(l@) == retain::dedup(
            sorted_map::views(s),
        );
    let v = s.map_values(|y: UnpublishedEntry| y@);
    lemma_same_items(wanted, v, x);
    assert(v =~= sorted_map::views(s));
    let j = choose|j: int| 0 <= j < v.len() && v[j] == x;
    let y = lemma_dedup_has(v, j);
    let new_list = sorted_map::views_at(after.live().unpublished, name);
    assert(new_list[y] == x);
    let edges = audit_graph::unpublished_edges(model.mapper, new_list);
    assert(edges[y].from == Some(u.audited_as));
}

/// Whether an exemption of a version counts for a criterion.
spec fn exempts(m: CriteriaMapper, e: ExemptedDependencyView, version: VetVersionView, i: int) -> bool {
    e.version == version && criteria::criteria_of(m, e.criteria).has(i)
}

/// Whether the criteria are those that are declared.
spec fn is_declared(m: CriteriaMapper, declared: SortedMap<CriteriaEntry>) -> bool {
    m.wf() && criteria::models_criteria(m, declared)
}

/// Whether an exemption still exempts from a criterion, if it did, once its
/// criteria are written down again.
pub open spec fn is_rewritten(m: CriteriaMapper, entry: ExemptedDependencyView, i: int) -> bool {
    let s = criteria::criteria_of(m, entry.criteria);
    s.has(i) ==> implications::is_led(m, s, i)
}

/// Whether the exemptions of a name that an update may write down again still
/// exempt from a criterion, if they did. Those that are pruned are reduced to what
/// is needed, unless they are not to be suggested.
pub open spec fn exemptions_keep(
    m: CriteriaMapper,
    store: Store,
    modes: UpdateModes,
    name: Seq<char>,
    i: int,
) -> bool {
    let list = sorted_map::views_at(store.config.exemptions, name);
    forall|k: int|
        0 <= k < list.len() ==> modes.at(name).prune_exemptions && (#[trigger] list[k]).suggest
            || is_rewritten(m, list[k], i)
}

/// An exemption that is kept for a criterion counts for it after an update.
proof fn lemma_revised_exempts(
    model: UpdateModel,
    declared: SortedMap<CriteriaEntry>,
    name: Seq<char>,
    k: int,
    entry: ExemptedDependencyView,
    i: int,
) -> (x: int)
    requires
        is_declared(model.mapper, declared),
        needs_orderly(model, name),
        model.useful_criteria(name, k, entry).has(i),
        is_rewritten(model.mapper, entry, i) || model.mode.at(name).prune_exemptions
            && entry.suggest && !model.fails(name),
    ensures
        0 <= x < model.revised(name, k, entry).len(),
        exempts(model.mapper, model.revised(name, k, entry)[x], entry.version, i),
{
    let m = model.mapper;
    let asked = model.criteria_for(
        name,
        RequiredEntryView::Exemption { exemption_index: k as usize },
    );
    let original = criteria::criteria_of(m, entry.criteria);
    let useful = model.useful_criteria(name, k, entry);
    CriteriaSet::lemma_union(asked, original);
    CriteriaSet::lemma_union(original, original);
    CriteriaSet::lemma_minus(useful, original);
    CriteriaSet::lemma_empty();
    let rest = useful.minus(original);
    assert forall|j: int| #[trigger] original.has(j) implies implications::is_named(m, j) by {
        implications::lemma_list_named(m, declared, entry.criteria, j);
    }
    assert forall|j: int| #[trigger] useful.has(j) implies implications::is_named(m, j) by {
        assert(asked.has(j) || original.has(j));
    }
    assert forall|j: int| #[trigger] rest.has(j) implies asked.has(j) && useful.has(j)
        && !original.has(j) by {}
    if !entry.suggest && !original.covers(useful) {
        if original.has(i) {
            let j = choose|j: int| #[trigger]
                criteria::is_minimal(m, original, j) && original.has(j) && m.implies_index(j, i);
            implications::lemma_written(m, original, j, i);
            1
        } else {
            assert(rest.has(i));
            let j = implications::lemma_minimal_above(m, declared, rest, i);
            implications::lemma_written(m, rest, j, i);
            0
        }
    } else {
        let j = lemma_useful_head(model, declared, name, k, entry, i);
        implications::lemma_written(m, useful, j, i);
        0
    }
}

/// A criterion that an exemption is kept for is implied by one that is written
/// down.
proof fn lemma_useful_head(
    model: UpdateModel,
    declared: SortedMap<CriteriaEntry>,
    name: Seq<char>,
    k: int,
    entry: ExemptedDependencyView,
    i: int,
) -> (j: int)
    requires
        is_declared(model.mapper, declared),
        needs_orderly(model, name),
        model.useful_criteria(name, k, entry).has(i),
        is_rewritten(model.mapper, entry, i) || model.mode.at(name).prune_exemptions
            && entry.suggest && !model.fails(name),
    ensures
        model.useful_criteria(name, k, entry).has(j),
        criteria::is_minimal(model.mapper, model.useful_criteria(name, k, entry), j),
        model.mapper.implies_index(j, i),
{
    let m = model.mapper;
    let asked = model.criteria_for(
        name,
        RequiredEntryView::Exemption { exemption_index: k as usize },
    );
    let original = criteria::criteria_of(m, entry.criteria);
    let useful = model.useful_criteria(name, k, entry);
    CriteriaSet::lemma_union(asked, original);
    CriteriaSet::lemma_union(original, original);
    CriteriaSet::lemma_empty();
    assert forall|j: int| #[trigger] original.has(j) implies j < m.names@.len() by {
        implications::lemma_criteria_known(m, entry.criteria, j);
    }
    assert forall|j: int| #[trigger] useful.has(j) implies j < m.names@.len() by {
        assert(asked.has(j) || original.has(j));
    }
    if model.mode.at(name).prune_exemptions && !model.fails(name) {
        assert(useful == asked);
        implications::lemma_minimal_above(m, declared, useful, i)
    } else if original.has(i) {
        let h = choose|h: int| #[trigger]
            criteria::is_minimal(m, original, h) && original.has(h) && m.implies_index(h, i);
        if criteria::is_minimal(m, useful, h) {
            assert(useful.has(h));
            h
        } else {
            let x = choose|x: int| #[trigger] useful.has(x) && x != h && m.implies_index(x, h);
            assert(!original.has(x));
            lemma_above_asked(m, declared, entry.criteria, useful, asked, x);
            let j = implications::lemma_minimal_above(m, declared, useful, x);
            implications::law_implication_is_transitive(m, declared, j, x, h);
            implications::law_implication_is_transitive(m, declared, j, h, i);
            j
        }
    } else {
        lemma_above_asked(m, declared, entry.criteria, useful, asked, i);
        implications::lemma_minimal_above(m, declared, useful, i)
    }
}

/// What implies a criterion that an exemption does not have, it does not have
/// either.
proof fn lemma_above_asked(
    m: CriteriaMapper,
    declared: SortedMap<CriteriaEntry>,
    list: Seq<Seq<char>>,
    useful: CriteriaSet,
    asked: CriteriaSet,
    i: int,
)
    requires
        is_declared(m, declared),
        forall|j: int| #[trigger]
            useful.has(j) ==> asked.has(j) || criteria::criteria_of(m, list).has(j),
        forall|j: int| #[trigger] asked.has(j) ==> implications::is_acyclic(m, j),
        !criteria::criteria_of(m, list).has(i),
    ensures
        forall|j: int| #[trigger]
            useful.has(j) && m.implies_index(j, i) ==> implications::is_acyclic(m, j),
{
    assert forall|j: int| #[trigger] useful.has(j) && m.implies_index(j, i) implies
        implications::is_acyclic(m, j) by {
        if criteria::criteria_of(m, list).has(j) {
            implications::law_criteria_are_closed(m, declared, list, j, i);
        }
    }
}

proof fn lemma_revised_all_has(
    model: UpdateModel,
    name: Seq<char>,
    list: Seq<ExemptedDependencyView>,
    k: int,
    x: int,
) -> (n: int)
    requires
        0 <= k < list.len(),
        0 <= x < model.revised(name, k, list[k]).len(),
    ensures
        0 <= n < model.revised_all(name, list).len(),
        model.revised_all(name, list)[n] == model.revised(name, k, list[k])[x],
    decreases list.len(),
{
    let rest = model.revised_all(name, list.drop_last());
    if k == list.len() - 1 {
        rest.len() + x
    } else {
        lemma_revised_all_has(model, name, list.drop_last(), k, x)
    }
}

proof fn lemma_new_exemptions_has(
    m: CriteriaMapper,
    list: Seq<(RequiredEntryView, CriteriaSet)>,
    k: int,
) -> (n: int)
    requires
        0 <= k < list.len(),
        list[k].0 is FreshExemption,
    ensures
        0 <= n < update::new_exemptions(m, list).len(),
        update::new_exemptions(m, list)[n].version == list[k].0->version,
        update::new_exemptions(m, list)[n].criteria == criteria::names_of(m, list[k].1),
    decreases list.len(),
{
    if k == list.len() - 1 {
        update::new_exemptions(m, list).len() - 1
    } else {
        lemma_new_exemptions_has(m, list.drop_last(), k)
    }
}

/// What one of the exemptions after an update provides.
proof fn lemma_exemption_provides(
    model: UpdateModel,
    after: Store,
    name: Seq<char>,
    version: VetVersionView,
    i: int,
    n: int,
)
    requires
        is_updated(model, after),
        0 <= n < model.exemptions(name).len(),
        exempts(model.mapper, model.exemptions(name)[n], version, i),
    ensures
        entries::provides(
            audit_graph::exemption_edges(
                model.mapper,
                sorted_map::views_at(after.config.exemptions, name),
            ),
            None,
            Some(version),
            i,
        ),
{
    let wanted = model.exemptions(name);
    let x = wanted[n];
    assert(wanted.contains(x));
    let found = after.config.exemptions.get_spec(name);
    assert(retain::is_listed(found, wanted));
    let l = found->0;
    assert(order::is_arrangement(l@, wanted));
    let v = l@.map_values(|y: ExemptedDependency| y@);
    lemma_same_items(wanted, v, x);
    let j = choose|j: int| 0 <= j < v.len() && v[j] == x;
    let list = sorted_map::views_at(after.config.exemptions, name);
    assert(list =~= v);
    let edges = audit_graph::exemption_edges(model.mapper, list);
    assert(edges[j].from is None);
}

/// Whether what an edge stands for is needed for a criterion.
spec fn is_needed(model: UpdateModel, name: Seq<char>, origin: DeltaEdgeOriginView, i: int) -> bool {
    forall|x: RequiredEntryView| #[trigger]
        required::needs(origin, x) ==> model.needs(name, x) && model.criteria_for(name, x).has(i)
}

/// Whether entries are needed only for criteria that their names stand for and
/// that are in no cycle.
spec fn needs_orderly(model: UpdateModel, name: Seq<char>) -> bool {
    forall|x: RequiredEntryView, i: int| #[trigger]
        model.criteria_for(name, x).has(i) ==> implications::is_named(model.mapper, i)
            && implications::is_acyclic(model.mapper, i)
}

/// What an exemption that is kept for a criterion provides, it provides after an
/// update too.
proof fn lemma_exemption_kept(
    model: UpdateModel,
    declared: SortedMap<CriteriaEntry>,
    after: Store,
    name: Seq<char>,
    k: int,
    i: int,
)
    requires
        is_updated(model, after),
        is_declared(model.mapper, declared),
        needs_orderly(model, name),
        0 <= k < sorted_map::views_at(model.store.config.exemptions, name).len(),
        model.useful_criteria(
            name,
            k,
            sorted_map::views_at(model.store.config.exemptions, name)[k],
        ).has(i),
        ({
            let entry = sorted_map::views_at(model.store.config.exemptions, name)[k];
            is_rewritten(model.mapper, entry, i) || model.mode.at(name).prune_exemptions
                && entry.suggest && !model.fails(name)
        }),
    ensures
        entries::provides(
            audit_graph::exemption_edges(
                model.mapper,
                sorted_map::views_at(after.config.exemptions, name),
            ),
            None,
            Some(sorted_map::views_at(model.store.config.exemptions, name)[k].version),
            i,
        ),
{
    let list = sorted_map::views_at(model.store.config.exemptions, name);
    let x = lemma_revised_exempts(model, declared, name, k, list[k], i);
    let n = lemma_revised_all_has(model, name, list, k, x);
    assert(model.exemptions(name)[n] == model.revised_all(name, list)[n]);
    lemma_exemption_provides(model, after, name, list[k].version, i, n);
}

/// A fresh exemption that is needed is there after an update.
proof fn lemma_fresh_exemption_kept(
    model: UpdateModel,
    declared: SortedMap<CriteriaEntry>,
    after: Store,
    name: Seq<char>,
    version: VetVersionView,
    i: int,
)
    requires
        is_updated(model, after),
        is_declared(model.mapper, declared),
        needs_orderly(model, name),
        model.required.get_spec(name) matches Some(r) && r is Some,
        is_needed(model, name, DeltaEdgeOriginView::FreshExemption { version }, i),
    ensures
        entries::provides(
            audit_graph::exemption_edges(
                model.mapper,
                sorted_map::views_at(after.config.exemptions, name),
            ),
            None,
            Some(version),
            i,
        ),
{
    let m = model.mapper;
    let need = RequiredEntryView::FreshExemption { version };
    assert(required::needs(DeltaEdgeOriginView::FreshExemption { version }, need));
    let entries = model.required.get_spec(name)->0->0;
    let k = entries.lemma_listed(need);
    let set = entries.listing()[k].1;
    assert(model.criteria_for(name, need) == set);
    assert forall|j: int| #[trigger] set.has(j) implies implications::is_named(m, j)
        && implications::is_acyclic(m, j) by {
        assert(model.criteria_for(name, need).has(j));
    }
    let j = implications::lemma_minimal_above(m, declared, set, i);
    implications::lemma_written(m, set, j, i);
    let x = lemma_new_exemptions_has(m, entries.listing(), k);
    let old_list = model.revised_all(
        name,
        sorted_map::views_at(model.store.config.exemptions, name),
    );
    let n = old_list.len() + x;
    assert(model.exemptions(name)[n] == update::new_exemptions(m, entries.listing())[x]);
    lemma_exemption_provides(model, after, name, version, i, n);
}

/// What a needed edge provides is provided after an update too.
proof fn lemma_edge_kept(
    model: UpdateModel,
    declared: SortedMap<CriteriaEntry>,
    after: Store,
    name: Seq<char>,
    n: int,
    i: int,
)
    requires
        is_updated(model, after),
        is_declared(model.mapper, declared),
        exemptions_keep(model.mapper, model.store, model.mode, name, i),
        needs_orderly(model, name),
        model.required.get_spec(name) matches Some(r) && r is Some,
        0 <= n < audit_graph::store_edges(model.store, model.mapper, name, None).len(),
        ({
            let e = audit_graph::store_edges(model.store, model.mapper, name, None)[n];
            is_needed(model, name, e.origin, i) && (e.criteria.has(i) || e.origin is Exemption)
        }),
    ensures
        ({
            let e = audit_graph::store_edges(model.store, model.mapper, name, None)[n];
            entries::provides(
                audit_graph::store_edges(after, model.mapper, name, None),
                e.from,
                e.to,
                i,
            )
        }),
{
    let m = model.mapper;
    let b = model.store;
    let a1 = audit_graph::audit_edges(
        m,
        audit_graph::all_audits(audit_graph::source_files(b, None), name),
    );
    let a2 = releases_of(b, m, name);
    let unpublished = sorted_map::views_at(b.live().unpublished, name);
    let a3 = audit_graph::unpublished_edges(m, unpublished);
    let exemptions = sorted_map::views_at(b.config.exemptions, name);
    let a4 = audit_graph::exemption_edges(m, exemptions);
    let all = audit_graph::store_edges(b, m, name, None);
    assert(all == a1 + a2 + a3 + a4);
    let e = all[n];
    let b1 = audit_graph::audit_edges(
        m,
        audit_graph::all_audits(audit_graph::source_files(after, None), name),
    );
    let b2 = releases_of(after, m, name);
    let b3 = audit_graph::unpublished_edges(
        m,
        sorted_map::views_at(after.live().unpublished, name),
    );
    let b4 = audit_graph::exemption_edges(
        m,
        sorted_map::views_at(after.config.exemptions, name),
    );
    let new_all = audit_graph::store_edges(after, m, name, None);
    assert(new_all == b1 + b2 + b3 + b4);
    let n2 = n - a1.len();
    let n3 = n2 - a2.len();
    let n4 = n3 - a3.len();
    if n < a1.len() {
        assert(e == a1[n]);
        let x = entries::lemma_audit_edges_from(
            m,
            audit_graph::all_audits(audit_graph::source_files(b, None), name),
            n,
        );
        let y = entries::lemma_all_audits_from(audit_graph::source_files(b, None), name, x);
        lemma_audit_kept(model, after, name, n, i);
        lemma_provides_in(b1, new_all, 0, e.from, e.to, i);
    } else if n2 < a2.len() {
        assert(e == a2[n2]);
        sorted_map::lemma_list_fits(b.live().publisher, name);
        let p = entries::lemma_release_edges_from(
            m,
            sorted_map::views_at(b.live().publisher, name),
            audit_graph::all_wildcards(audit_graph::source_files(b, None), name),
            sorted_map::views_at(b.audits.trusted, name),
            n2,
        );
        lemma_release_kept(model, after, name, n2, i);
        lemma_provides_in(b2, new_all, b1.len() as int, e.from, e.to, i);
    } else if n3 < a3.len() {
        assert(e == a3[n3]);
        assert(required::needs(
            e.origin,
            RequiredEntryView::Unpublished { unpublished_index: n3 as usize },
        ));
        lemma_unpublished_kept(model, after, name, n3, i);
        lemma_provides_in(b3, new_all, (b1.len() + b2.len()) as int, e.from, e.to, i);
    } else {
        assert(e == a4[n4]);
        let need = RequiredEntryView::Exemption { exemption_index: n4 as usize };
        assert(required::needs(e.origin, need));
        CriteriaSet::lemma_union(
            model.criteria_for(name, need),
            criteria::criteria_of(m, exemptions[n4].criteria),
        );
        lemma_exemption_kept(model, declared, after, name, n4, i);
        lemma_provides_in(
            b4,
            new_all,
            (b1.len() + b2.len() + b3.len()) as int,
            e.from,
            e.to,
            i,
        );
    }
}

/// The origin of each step of a walk is in the paths of the nodes after it.
proof fn lemma_walk_path(q: Query, w: Seq<NodeView>, n: int, end: int)
    requires
        q.is_walk(w),
        0 <= n < end < w.len(),
    ensures
        w[end].path.len() == end,
        w[n].path.len() == n,
        w[end].path[n] == w[n + 1].path.last(),
    decreases end,
{
    lemma_path_len(q, w, n);
    lemma_path_len(q, w, end);
    lemma_path_len(q, w, n + 1);
    if end > n + 1 {
        lemma_walk_path(q, w, n, end - 1);
        assert(q.is_successor(w[end - 1], w[end - 1 + 1]));
    }
}

proof fn lemma_path_len(q: Query, w: Seq<NodeView>, n: int)
    requires
        q.is_walk(w),
        0 <= n < w.len(),
    ensures
        w[n].path.len() == n,
    decreases n,
{
    if n > 0 {
        lemma_path_len(q, w, n - 1);
        assert(q.is_successor(w[n - 1], w[n - 1 + 1]));
    }
}

/// Whether everything on a path is needed for a criterion.
spec fn is_path_needed(
    model: UpdateModel,
    name: Seq<char>,
    path: Seq<DeltaEdgeOriginView>,
    i: int,
) -> bool {
    forall|j: int| 0 <= j < path.len() ==> is_needed(model, name, #[trigger] path[j], i)
}

/// What a walk that is needed comes to is reached after an update too.
proof fn lemma_walk_kept(
    model: UpdateModel,
    declared: SortedMap<CriteriaEntry>,
    after: Store,
    name: Seq<char>,
    q: Query,
    again: Query,
    w: Seq<NodeView>,
    n: int,
)
    requires
        is_updated(model, after),
        is_declared(model.mapper, declared),
        exemptions_keep(model.mapper, model.store, model.mode, name, q.criteria_idx),
        needs_orderly(model, name),
        model.required.get_spec(name) matches Some(r) && r is Some,
        forall|v: Option<VetVersionView>| #[trigger]
            (q.edges)(v) == audit_graph::backward_from(
                audit_graph::store_edges(model.store, model.mapper, name, None),
                v,
            ),
        forall|v: Option<VetVersionView>| #[trigger]
            (again.edges)(v) == audit_graph::backward_from(
                audit_graph::store_edges(after, model.mapper, name, None),
                v,
            ),
        q.criteria_idx == again.criteria_idx,
        q.from == again.from,
        q.is_walk(w),
        is_path_needed(model, name, w.last().path, q.criteria_idx),
        0 <= n < w.len(),
    ensures
        again.reachable(w[n].version),
    decreases n,
{
    if n == 0 {
        search::lemma_start_reachable(again);
    } else {
        lemma_walk_kept(model, declared, after, name, q, again, w, n - 1);
        let i = q.criteria_idx;
        let s = audit_graph::store_edges(model.store, model.mapper, name, None);
        let t = audit_graph::store_edges(after, model.mapper, name, None);
        let a = w[n - 1];
        let b = w[n];
        assert(q.is_successor(w[n - 1], w[n - 1 + 1]));
        lemma_walk_path(q, w, n - 1, w.len() - 1);
        let origin = b.path.last();
        assert(w.last().path[n - 1] == origin);
        assert(is_needed(model, name, origin, i));
        if exists|k: int| q.follows(a, b, k) {
            let k = choose|k: int| q.follows(a, b, k);
            let x = audit_graph::lemma_backward_member(s, a.version, k);
            assert(s[x].origin == origin);
            lemma_edge_kept(model, declared, after, name, x, i);
        } else {
            let version = a.version->0;
            assert(origin == DeltaEdgeOriginView::FreshExemption { version });
            lemma_fresh_exemption_kept(model, declared, after, name, version, i);
            let part = audit_graph::exemption_edges(
                model.mapper,
                sorted_map::views_at(after.config.exemptions, name),
            );
            lemma_provides_in(part, t, t.len() - part.len(), None, Some(version), i);
        }
        assert(entries::provides(t, b.version, a.version, i));
        let y = choose|y: int|
            0 <= y < t.len() && (#[trigger] t[y]).from == b.version && t[y].to == a.version
                && t[y].criteria.has(i);
        let z = audit_graph::lemma_backward_has(t, y);
        audit_graph::lemma_reach_step(again, a.version, z);
    }
}

/// Whether all that is asked of packages can be named, with all that it implies.
pub open spec fn are_nameable(m: CriteriaMapper, requirements: Seq<CriteriaSet>) -> bool {
    forall|p: int|
        0 <= p < requirements.len() ==> demands::is_nameable(m, #[trigger] requirements[p])
}

/// Entries are needed only for criteria that their names stand for and that are in
/// no cycle: no criterion of a cycle is searched for.
proof fn lemma_needs_orderly(
    model: UpdateModel,
    packages: Seq<Package>,
    requirements: Seq<CriteriaSet>,
    name: Seq<char>,
)
    requires
        requirements.len() == packages.len(),
        are_nameable(model.mapper, requirements),
        update::is_required(
            model.store,
            model.mapper,
            packages,
            requirements,
            model.mode,
            name,
            model.required.get_spec(name),
        ),
    ensures
        needs_orderly(model, name),
{
    let m = model.mapper;
    let d = Demand {
        store: model.store,
        mapper: m,
        packages,
        requirements,
        name,
        mode: model.mode.at(name).search_mode,
    };
    CriteriaSet::lemma_empty();
    if let Some(Some(entries)) = model.required.get_spec(name) {
        let paths = choose|paths: Map<(int, int), Seq<DeltaEdgeOriginView>>| #[trigger]
            d.is_proof(paths) && entries.collects(paths);
        assert forall|x: RequiredEntryView, k: int| #[trigger]
            model.criteria_for(name, x).has(k) implies implications::is_named(m, k)
            && implications::is_acyclic(m, k) by {
            assert(entries.has_for(x, k));
            assert(required::is_used_for(paths, x, k));
            let y = choose|y: int| #[trigger]
                paths.dom().contains((y, k)) && required::uses(paths[(y, k)], x);
            assert(d.needs(y, k));
            assert(demands::is_nameable(m, requirements[y]));
            assert(requirements[y].has(k));
            assert forall|j: int|
                #![trigger m.implies_index(k, j), m.implies_index(j, k)]
                m.implies_index(k, j) && m.implies_index(j, k) implies k == j by {
                assert(requirements[y].has(j));
            }
        }
    }
}

/// What can be shown before an update can be shown after it.
proof fn lemma_update_keeps(
    model: UpdateModel,
    declared: SortedMap<CriteriaEntry>,
    packages: Seq<Package>,
    requirements: Seq<CriteriaSet>,
    after: Store,
    name: Seq<char>,
    p: int,
    i: int,
    mode: SearchMode,
)
    requires
        is_declared(model.mapper, declared),
        exemptions_keep(model.mapper, model.store, model.mode, name, i),
        requirements.len() == packages.len(),
        are_nameable(model.mapper, requirements),
        update::is_required(
            model.store,
            model.mapper,
            packages,
            requirements,
            model.mode,
            name,
            model.required.get_spec(name),
        ),
        !model.fails(name),
        is_updated(model, after),
        0 <= p < packages.len(),
        packages[p].name@ == name,
        packages[p].third_party(model.store.config.policy),
        requirements[p].has(i),
        criteria::is_minimal(model.mapper, requirements[p], i),
    ensures
        audit_graph::to_root(
            audit_graph::store_edges(after, model.mapper, name, None),
            i,
            packages[p].version@,
            mode,
        ).reachable(None),
{
    let d = Demand {
        store: model.store,
        mapper: model.mapper,
        packages,
        requirements,
        name,
        mode: model.mode.at(name).search_mode,
    };
    assert(packages[p].name@ == name);
    let entries = model.required.get_spec(name)->0->0;
    let paths = choose|paths: Map<(int, int), Seq<DeltaEdgeOriginView>>| #[trigger]
        d.is_proof(paths) && entries.collects(paths);
    assert(d.needs(p, i));
    assert(paths.dom().contains((p, i)));
    let path = paths[(p, i)];
    let q = d.query(p, i);
    search::law_found_path_is_a_walk(q, path);
    let w = choose|w: Seq<NodeView>| #[trigger]
        q.is_walk(w) && w.last().version == q.to && w.last().path == path;
    lemma_needs_orderly(model, packages, requirements, name);
    assert(is_path_needed(model, name, path, i)) by {
        assert forall|j: int| 0 <= j < path.len() implies is_needed(
            model,
            name,
            #[trigger] path[j],
            i,
        ) by {
            assert forall|x: RequiredEntryView| #[trigger]
                required::needs(path[j], x) implies model.needs(name, x) && model.criteria_for(
                name,
                x,
            ).has(i) by {
                assert(required::uses(path, x));
                assert(required::is_used_for(paths, x, i));
                assert(entries.has_for(x, i));
            }
        }
    }
    let again = audit_graph::to_root(
        audit_graph::store_edges(after, model.mapper, name, None),
        i,
        packages[p].version@,
        mode,
    );
    lemma_walk_kept(model, declared, after, name, q, again, w, w.len() - 1);
}

/// All that is asked of packages can be named, with all that it implies.
pub proof fn lemma_requirements_nameable(
    graph: PackageGraph,
    resolver: CargoResolverVersion,
    before: Store,
    modes: UpdateModes,
    b: UpdateBasis,
)
    requires
        b.holds(graph, resolver, before, modes),
    ensures
        are_nameable(b.mapper, b.requirements),
{
    let m = b.mapper;
    assert forall|x: int| 0 <= x < b.requirements.len() implies demands::is_nameable(
        m,
        #[trigger] b.requirements[x],
    ) by {
        let s = b.requirements[x];
        assert(resolve::is_requirement(graph, resolver, before, m, b.packages, x, s));
        assert forall|i: int| #[trigger] s.has(i) implies implications::is_named(m, i)
            && forall|j: int| #[trigger] m.implies_index(i, j) ==> s.has(j) by {
            demands::law_workspace_asks_closed_criteria(
                graph,
                resolver,
                before.config,
                m,
                before.audits.criteria,
                b.packages,
                x,
                i,
            );
        }
        assert forall|i: int, j: int|
            #![trigger s.has(i), m.implies_index(i, j)]
            s.has(i) && m.implies_index(i, j) implies s.has(j) by {}
    }
}

/// An update keeps what is vetted: a criterion that a third-party package has to
/// meet and that it could be shown to meet before, it can be shown to meet with
/// what the update leaves, and with nothing that was fetched and not imported. The
/// criterion has to be implied by one that no other required one implies, and
/// exemptions have to keep what they exempt from.
pub proof fn law_update_keeps_vetting(
    graph: PackageGraph,
    resolver: CargoResolverVersion,
    before: Store,
    modes: UpdateModes,
    b: UpdateBasis,
    after: Store,
    p: int,
    i: int,
    mode: SearchMode,
)
    requires
        b.holds(graph, resolver, before, modes),
        is_updated(b.model(before, modes), after),
        0 <= p < b.packages.len(),
        b.packages[p].third_party(before.config.policy),
        !b.model(before, modes).fails(b.packages[p].name@),
        b.requirements[p].has(i),
        implications::is_led(b.mapper, b.requirements[p], i),
        forall|j: int| #[trigger]
            b.requirements[p].has(j) ==> exemptions_keep(
                b.mapper,
                before,
                modes,
                b.packages[p].name@,
                j,
            ),
    ensures
        audit_graph::to_root(
            audit_graph::store_edges(after, b.mapper, b.packages[p].name@, None),
            i,
            b.packages[p].version@,
            mode,
        ).reachable(None),
{
    let m = b.mapper;
    let declared = before.audits.criteria;
    let name = b.packages[p].name@;
    lemma_requirements_nameable(graph, resolver, before, modes, b);
    let j = choose|j: int| #[trigger]
        criteria::is_minimal(m, b.requirements[p], j) && b.requirements[p].has(j)
            && m.implies_index(j, i);
    lemma_update_keeps(
        b.model(before, modes),
        declared,
        b.packages,
        b.requirements,
        after,
        name,
        p,
        j,
        mode,
    );
    demands::law_vetting_follows_implications(
        after,
        m,
        declared,
        name,
        None,
        j,
        i,
        b.packages[p].version@,
        mode,
        None,
    );
}

/// An update that does not drop exemptions keeps what they exempt from: each
/// criterion of an exemption that is implied by one that no other of the exemption
/// implies.
pub proof fn law_update_keeps_exemptions(
    graph: PackageGraph,
    resolver: CargoResolverVersion,
    before: Store,
    modes: UpdateModes,
    b: UpdateBasis,
    after: Store,
    name: Seq<char>,
    k: int,
    i: int,
)
    requires
        b.holds(graph, resolver, before, modes),
        is_updated(b.model(before, modes), after),
        !modes.at(name).prune_exemptions,
        0 <= k < sorted_map::views_at(before.config.exemptions, name).len(),
        criteria::criteria_of(
            b.mapper,
            sorted_map::views_at(before.config.exemptions, name)[k].criteria,
        ).has(i),
        is_rewritten(
            b.mapper,
            sorted_map::views_at(before.config.exemptions, name)[k],
            i,
        ),
    ensures
        entries::provides(
            audit_graph::exemption_edges(
                b.mapper,
                sorted_map::views_at(after.config.exemptions, name),
            ),
            None,
            Some(sorted_map::views_at(before.config.exemptions, name)[k].version),
            i,
        ),
{
    let model = b.model(before, modes);
    let entry = sorted_map::views_at(before.config.exemptions, name)[k];
    let original = criteria::criteria_of(b.mapper, entry.criteria);
    lemma_requirements_nameable(graph, resolver, before, modes, b);
    assert(update::is_required(
        before,
        b.mapper,
        b.packages,
        b.requirements,
        modes,
        name,
        b.required.get_spec(name),
    ));
    lemma_needs_orderly(model, b.packages, b.requirements, name);
    CriteriaSet::lemma_union(original, original);
    CriteriaSet::lemma_union(
        model.criteria_for(name, RequiredEntryView::Exemption { exemption_index: k as usize }),
        original,
    );
    lemma_exemption_kept(model, before.audits.criteria, after, name, k, i);
}

/// When exemptions are regenerated, only violations can keep the packages of a
/// name from being vetted.
pub proof fn law_regenerating_vets(
    graph: PackageGraph,
    resolver: CargoResolverVersion,
    store: Store,
    modes: UpdateModes,
    b: UpdateBasis,
    name: Seq<char>,
)
    requires
        b.holds(graph, resolver, store, modes),
        modes.at(name).search_mode == SearchMode::RegenerateExemptions,
        audit_graph::store_conflicts(store, b.mapper, name, None).len() == 0,
    ensures
        !b.model(store, modes).fails(name),
{
    assert(update::is_required(
        store,
        b.mapper,
        b.packages,
        b.requirements,
        modes,
        name,
        b.required.get_spec(name),
    ));
    if b.model(store, modes).fails(name) {
        let d = Demand {
            store,
            mapper: b.mapper,
            packages: b.packages,
            requirements: b.requirements,
            name,
            mode: modes.at(name).search_mode,
        };
        assert(d.fails());
        let (p, i) = choose|p: int, i: int| #[trigger]
            d.needs(p, i) && !d.query(p, i).reachable(None);
        search::law_regenerating_reaches_root(d.query(p, i));
    }
}

/// After an update no unpublished entry is listed twice.
pub proof fn law_unpublished_entries_differ(
    model: UpdateModel,
    after: Store,
    name: Seq<char>,
    i: int,
    j: int,
)
    requires
        is_updated(model, after),
        forall|k: int|
            0 <= k < sorted_map::views_at(model.store.live().unpublished, name).len()
                ==> keys::entry_countable(
                #[trigger] sorted_map::views_at(model.store.live().unpublished, name)[k],
            ),
        0 <= i < j < sorted_map::views_at(after.imports.unpublished, name).len(),
    ensures
        sorted_map::views_at(after.imports.unpublished, name)[i] != sorted_map::views_at(
            after.imports.unpublished,
            name,
        )[j],
{
    let list = sorted_map::views_at(model.store.live().unpublished, name);
    let flags = model.unpublished_flags(name);
    let wanted = retain::kept_imports::<UnpublishedEntry>(list, flags);
    let found = after.imports.unpublished.get_spec(name);
    assert(update::is_listed_once(found, wanted));
    let l = found->0;
    let s = choose|s: Seq<UnpublishedEntry>| #[trigger]
        order::is_arrangement(s, wanted) && sorted_map::views(l@) == retain::dedup(
            sorted_map::views(s),
        );
    let v = s.map_values(|y: UnpublishedEntry| y@);
    assert(v =~= sorted_map::views(s));
    assert forall|k: int| 0 <= k < v.len() implies keys::entry_countable(#[trigger] v[k]) by {
        assert(v.contains(v[k]));
        lemma_same_items(v, wanted, v[k]);
        let x = choose|x: int| 0 <= x < wanted.len() && wanted[x] == v[k];
        let kept = retain::kept(list, flags);
        assert(kept.contains(kept[x]));
        let y = retain::lemma_kept_member(list, flags, kept[x]);
        assert(keys::entry_countable(list[y]));
    }
    assert(keys::keys_sorted(v)) by {
        assert forall|a: int, b: int| 0 <= a < b < v.len() implies order::lex_le(
            records::unpublished_key(#[trigger] v[a]),
            records::unpublished_key(#[trigger] v[b]),
        ) by {
            assert(order::lex_le(s[a].sort_key(), s[b].sort_key()));
        }
    }
    keys::lemma_dedup_once(v);
}

} // verus!
