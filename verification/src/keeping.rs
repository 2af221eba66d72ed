//! What an update of the store keeps, and what it drops.

use vstd::prelude::*;
use guppy::graph::cargo::CargoResolverVersion;
use guppy::graph::PackageGraph;
use crate::audit_graph;
use crate::conflicts;
use crate::criteria;
use crate::edges::{DeltaEdgeOriginView, RequiredEntryView};
use crate::order;
use crate::preserve;
use crate::records::{
    AuditEntryView, AuditsFile, ConfigFile, CratesPublisherView, ImportsFile, Store,
    UnpublishedEntry, UnpublishedEntryView, WildcardEntryView,
};
use crate::required;
use crate::required::Demand;
use crate::retain;
use crate::retain::Imported;
use crate::sorted_map;
use crate::sorted_map::SortedMap;
use crate::update;
use crate::update::{get_store_updates, StoreUpdates, UpdateBasis, UpdateModes};

verus! {

/// Whether a proof is asked for a criterion of a package: it needs audits, has to
/// meet the criterion, and no other that it has to meet implies it.
pub open spec fn is_asked(b: UpdateBasis, store: Store, name: Seq<char>, p: int, i: int) -> bool {
    &&& 0 <= p < b.packages.len()
    &&& b.packages[p].name@ == name
    &&& b.packages[p].third_party(store.config.policy)
    &&& b.requirements[p].has(i)
    &&& forall|j: int| #[trigger]
        b.requirements[p].has(j) && b.mapper.implies_index(j, i) ==> j == i
}

/// Whether a path proves something that is asked of the packages of a name.
pub open spec fn is_proof(
    b: UpdateBasis,
    store: Store,
    modes: UpdateModes,
    name: Seq<char>,
    path: Seq<DeltaEdgeOriginView>,
) -> bool {
    exists|p: int, i: int| #[trigger]
        is_asked(b, store, name, p, i) && audit_graph::to_root(
            audit_graph::store_edges(store, b.mapper, name, None),
            i,
            b.packages[p].version@,
            modes.at(name).search_mode,
        ).can_find(path)
}

/// Whether a proof that a search can find rests on something.
pub open spec fn is_relied_on(
    b: UpdateBasis,
    store: Store,
    modes: UpdateModes,
    name: Seq<char>,
    wanted: spec_fn(DeltaEdgeOriginView) -> bool,
) -> bool {
    exists|path: Seq<DeltaEdgeOriginView>, x: int|
        is_proof(b, store, modes, name, path) && 0 <= x < path.len() && wanted(#[trigger] path[x])
}

/// Whether the packages of a name cannot be vetted: entries contradict each other,
/// or there is no proof of something that is asked.
pub open spec fn is_stuck(b: UpdateBasis, store: Store, modes: UpdateModes, name: Seq<char>) -> bool {
    &&& exists|p: int|
        0 <= p < b.packages.len() && (#[trigger] b.packages[p]).name@ == name
            && b.packages[p].third_party(store.config.policy)
    &&& (exists|c: audit_graph::ViolationConflictView| #[trigger]
        conflicts::is_contradiction(store, None, b.mapper, name, c)) || exists|p: int, i: int|
        #[trigger]
        is_asked(b, store, name, p, i) && !audit_graph::to_root(
            audit_graph::store_edges(store, b.mapper, name, None),
            i,
            b.packages[p].version@,
            modes.at(name).search_mode,
        ).reachable(None)
}

/// Whether a package of the build has a name.
pub open spec fn is_in_build(b: UpdateBasis, name: Seq<char>) -> bool {
    exists|p: int| 0 <= p < b.packages.len() && (#[trigger] b.packages[p]).name@ == name
}

/// What stands behind an edge that was fetched and is not stored yet.
pub open spec fn rests_on_fresh(store: Store, name: Seq<char>, o: DeltaEdgeOriginView) -> bool {
    let imports = conflicts::imports_of(store);
    let releases = sorted_map::views_at(imports.publisher, name);
    match o {
        DeltaEdgeOriginView::ImportedAudit { import_index, audit_index } => sorted_map::views_at(
            imports.audits.entries()[import_index as int].1.audits,
            name,
        )[audit_index as int].is_fresh_import,
        DeltaEdgeOriginView::WildcardAudit { import_index, audit_index, publisher_index } => {
            releases[publisher_index as int].is_fresh_import || (import_index matches Some(f)
                && sorted_map::views_at(
                imports.audits.entries()[f as int].1.wildcard_audits,
                name,
            )[audit_index as int].is_fresh_import)
        },
        DeltaEdgeOriginView::Trusted {
            publisher_index,
        } => releases[publisher_index as int].is_fresh_import,
        _ => false,
    }
}

spec fn demand(b: UpdateBasis, store: Store, modes: UpdateModes, name: Seq<char>) -> Demand {
    Demand {
        store,
        mapper: b.mapper,
        packages: b.packages,
        requirements: b.requirements,
        name,
        mode: modes.at(name).search_mode,
    }
}

proof fn lemma_asked(
    b: UpdateBasis,
    store: Store,
    modes: UpdateModes,
    name: Seq<char>,
    p: int,
    i: int,
)
    ensures
        demand(b, store, modes, name).needs(p, i) <==> is_asked(b, store, name, p, i),
{
    let s = b.requirements[p];
    if is_asked(b, store, name, p, i) {
        assert(criteria::is_minimal(b.mapper, s, i));
    }
}

pub proof fn lemma_stuck(
    graph: PackageGraph,
    resolver: CargoResolverVersion,
    b: UpdateBasis,
    store: Store,
    modes: UpdateModes,
    name: Seq<char>,
)
    requires
        b.holds(graph, resolver, store, modes),
    ensures
        b.model(store, modes).fails(name) <==> is_stuck(b, store, modes, name),
        b.model(store, modes).is_built(name) <==> is_in_build(b, name),
{
    let d = demand(b, store, modes, name);
    assert(update::is_required(
        store,
        b.mapper,
        b.packages,
        b.requirements,
        modes,
        name,
        b.required.get_spec(name),
    ));
    let all = audit_graph::store_conflicts(store, b.mapper, name, None);
    assert forall|c: audit_graph::ViolationConflictView| all.contains(c) <==> #[trigger]
        conflicts::is_contradiction(store, None, b.mapper, name, c) by {
        conflicts::law_conflicts_are_contradictions(store, None, b.mapper, name, c);
    }
    assert(all.len() > 0 <==> exists|c: audit_graph::ViolationConflictView| #[trigger]
        conflicts::is_contradiction(store, None, b.mapper, name, c)) by {
        if all.len() > 0 {
            assert(all.contains(all[0]));
            conflicts::law_conflicts_are_contradictions(store, None, b.mapper, name, all[0]);
            assert(conflicts::is_contradiction(store, None, b.mapper, name, all[0]));
        }
        if exists|c: audit_graph::ViolationConflictView| #[trigger]
            conflicts::is_contradiction(store, None, b.mapper, name, c) {
            let c = choose|c: audit_graph::ViolationConflictView| #[trigger]
                conflicts::is_contradiction(store, None, b.mapper, name, c);
            assert(all.contains(c));
        }
    }
    assert forall|p: int, i: int| #[trigger] d.needs(p, i) == is_asked(b, store, name, p, i) by {
        lemma_asked(b, store, modes, name, p, i);
    }
    assert forall|p: int, i: int| #[trigger] is_asked(b, store, name, p, i) == d.needs(p, i) by {
        lemma_asked(b, store, modes, name, p, i);
    }
    if exists|p: int| d.is_user(p) {
        let p = choose|p: int| d.is_user(p);
        assert(b.packages[p].name@ == name);
    }
    if is_stuck(b, store, modes, name) {
        let p = choose|p: int|
            0 <= p < b.packages.len() && (#[trigger] b.packages[p]).name@ == name
                && b.packages[p].third_party(store.config.policy);
        assert(d.is_user(p));
        assert(d.fails());
        assert(b.packages[p].name@ == name);
    }
    if d.fails() {
        assert(is_stuck(b, store, modes, name));
    }
}

/// What is needed is relied on by a proof.
proof fn lemma_relied(
    graph: PackageGraph,
    resolver: CargoResolverVersion,
    b: UpdateBasis,
    store: Store,
    modes: UpdateModes,
    name: Seq<char>,
    e: RequiredEntryView,
) -> (r: (Seq<DeltaEdgeOriginView>, int))
    requires
        b.holds(graph, resolver, store, modes),
        b.model(store, modes).needs(name, e),
    ensures
        is_proof(b, store, modes, name, r.0),
        0 <= r.1 < r.0.len(),
        required::needs(r.0[r.1], e),
{
    let d = demand(b, store, modes, name);
    assert(update::is_required(
        store,
        b.mapper,
        b.packages,
        b.requirements,
        modes,
        name,
        b.required.get_spec(name),
    ));
    let entries = b.required.get_spec(name)->0->0;
    let paths = choose|paths: Map<(int, int), Seq<DeltaEdgeOriginView>>| #[trigger]
        d.is_proof(paths) && entries.collects(paths);
    assert(required::is_used(paths, e));
    let (p, i) = choose|p: int, i: int| #[trigger]
        paths.dom().contains((p, i)) && required::uses(paths[(p, i)], e);
    let path = paths[(p, i)];
    let x = choose|x: int| 0 <= x < path.len() && required::needs(#[trigger] path[x], e);
    lemma_asked(b, store, modes, name, p, i);
    assert(is_asked(b, store, name, p, i));
    assert(is_proof(b, store, modes, name, path));
    (path, x)
}

/// Nothing is dropped for something fresh that no proof rests on.
proof fn lemma_no_pruning(
    graph: PackageGraph,
    resolver: CargoResolverVersion,
    b: UpdateBasis,
    store: Store,
    modes: UpdateModes,
    name: Seq<char>,
)
    requires
        b.holds(graph, resolver, store, modes),
        !modes.at(name).prune_imports,
        !is_relied_on(
            b,
            store,
            modes,
            name,
            |o: DeltaEdgeOriginView| rests_on_fresh(store, name, o),
        ),
    ensures
        !b.model(store, modes).prunes_imports(name),
{
    let model = b.model(store, modes);
    if model.prunes_imports(name) {
        let entries = b.required.get_spec(name)->0->0;
        let e = choose|e: RequiredEntryView|
            entries.has(e) && #[trigger] update::is_fresh(store, name, e);
        assert(model.needs(name, e));
        let (path, x) = lemma_relied(graph, resolver, b, store, modes, name, e);
        assert(rests_on_fresh(store, name, path[x]));
        let wanted = |o: DeltaEdgeOriginView| rests_on_fresh(store, name, o);
        assert(wanted(path[x]));
    }
}

/// What is left of a list are its flagged entries.
proof fn lemma_left<T: Imported>(
    r: SortedMap<Vec<T>>,
    map: SortedMap<Vec<T>>,
    flags: spec_fn(Seq<char>) -> Seq<bool>,
    name: Seq<char>,
    x: T::V,
) -> (j: int)
    requires
        retain::retains(r, map, flags),
        sorted_map::views_at(r, name).contains(x),
    ensures
        0 <= j < sorted_map::views_at(map, name).len(),
        flags(name)[j],
        x == T::imported(sorted_map::views_at(map, name)[j]),
{
    let list = sorted_map::views_at(map, name);
    let kept = retain::kept(list, flags(name));
    let wanted = retain::kept_imports::<T>(list, flags(name));
    assert(retain::is_listed(r.get_spec(name), wanted));
    let l = r.get_spec(name)->0;
    assert(order::is_arrangement(l@, wanted));
    let v = l@.map_values(|y: T| y@);
    assert(sorted_map::views_at(r, name) =~= v);
    preserve::lemma_same_items(v, wanted, x);
    let n = choose|n: int| 0 <= n < wanted.len() && wanted[n] == x;
    assert(kept.contains(kept[n]));
    retain::lemma_kept_member(list, flags(name), kept[n])
}

/// The audits of an import that are stored for a package.
pub open spec fn imported_audits(imports: ImportsFile, f: int, name: Seq<char>) -> Seq<
    AuditEntryView,
> {
    sorted_map::views_at(imports.audits.entries()[f].1.audits, name)
}

/// The wildcard audits of an import that are stored for a package.
pub open spec fn imported_wildcards(imports: ImportsFile, f: int, name: Seq<char>) -> Seq<
    WildcardEntryView,
> {
    sorted_map::views_at(imports.audits.entries()[f].1.wildcard_audits, name)
}

/// The audits of an import that count before an update.
pub open spec fn audits_before(store: Store, f: int, name: Seq<char>) -> Seq<AuditEntryView> {
    sorted_map::views_at(conflicts::imports_of(store).audits.entries()[f].1.audits, name)
}

/// The wildcard audits of an import that count before an update.
pub open spec fn wildcards_before(store: Store, f: int, name: Seq<char>) -> Seq<WildcardEntryView> {
    sorted_map::views_at(conflicts::imports_of(store).audits.entries()[f].1.wildcard_audits, name)
}

/// The releases that count before an update.
pub open spec fn releases_before(store: Store, name: Seq<char>) -> Seq<CratesPublisherView> {
    sorted_map::views_at(conflicts::imports_of(store).publisher, name)
}

/// The unpublished entries that count before an update.
pub open spec fn unpublished_before(store: Store, name: Seq<char>) -> Seq<UnpublishedEntryView> {
    sorted_map::views_at(conflicts::imports_of(store).unpublished, name)
}

/// Whether everything that is stored of the imports of a package stays.
pub open spec fn stored_imports_stay(store: Store, imports: ImportsFile, name: Seq<char>) -> bool {
    let n = conflicts::imports_of(store).audits.entries().len();
    &&& forall|f: int, j: int|
        0 <= f < n && 0 <= j < audits_before(store, f, name).len() && !(#[trigger] audits_before(
            store,
            f,
            name,
        )[j]).is_fresh_import ==> imported_audits(imports, f, name).contains(
            audits_before(store, f, name)[j],
        )
    &&& forall|f: int, j: int|
        0 <= f < n && 0 <= j < wildcards_before(store, f, name).len() && !(
        #[trigger] wildcards_before(store, f, name)[j]).is_fresh_import ==> imported_wildcards(
            imports,
            f,
            name,
        ).contains(wildcards_before(store, f, name)[j])
    &&& forall|j: int|
        0 <= j < releases_before(store, name).len() && !(#[trigger] releases_before(
            store,
            name,
        )[j]).is_fresh_import ==> sorted_map::views_at(imports.publisher, name).contains(
            releases_before(store, name)[j],
        )
}

proof fn lemma_stay(
    graph: PackageGraph,
    resolver: CargoResolverVersion,
    b: UpdateBasis,
    store: Store,
    modes: UpdateModes,
    u: StoreUpdates,
    name: Seq<char>,
)
    requires
        b.holds(graph, resolver, store, modes),
        b.model(store, modes).updates(u),
        !b.model(store, modes).prunes_imports(name) || b.model(store, modes).fails(name),
    ensures
        stored_imports_stay(store, u.imports, name),
{
    let model = b.model(store, modes);
    let live = store.live();
    assert(u.imports.audits.keys().len() == live.audits.keys().len());
    assert forall|f: int, j: int|
        0 <= f < live.audits.entries().len() && 0 <= j < audits_before(store, f, name).len() && !(
        #[trigger] audits_before(store, f, name)[j]).is_fresh_import implies imported_audits(
        u.imports,
        f,
        name,
    ).contains(audits_before(store, f, name)[j]) by {
        assert(model.updates_import(f, u.imports.audits.entries()[f].1));
        assert(model.audit_flags(f, name)[j]);
        let n = preserve::lemma_retained(
            u.imports.audits.entries()[f].1.audits,
            live.audits.entries()[f].1.audits,
            |name: Seq<char>| model.audit_flags(f, name),
            name,
            j,
        );
        assert(imported_audits(u.imports, f, name)[n] =~= audits_before(store, f, name)[j]);
    }
    assert forall|f: int, j: int|
        0 <= f < live.audits.entries().len() && 0 <= j < wildcards_before(store, f, name).len() && !(
        #[trigger] wildcards_before(store, f, name)[j]).is_fresh_import implies imported_wildcards(
        u.imports,
        f,
        name,
    ).contains(wildcards_before(store, f, name)[j]) by {
        assert(model.updates_import(f, u.imports.audits.entries()[f].1));
        assert(model.wildcard_flags(f, name)[j]);
        let n = preserve::lemma_retained(
            u.imports.audits.entries()[f].1.wildcard_audits,
            live.audits.entries()[f].1.wildcard_audits,
            |name: Seq<char>| model.wildcard_flags(f, name),
            name,
            j,
        );
        assert(imported_wildcards(u.imports, f, name)[n] =~= wildcards_before(store, f, name)[j]);
    }
    assert forall|j: int|
        0 <= j < releases_before(store, name).len() && !(#[trigger] releases_before(
            store,
            name,
        )[j]).is_fresh_import implies sorted_map::views_at(u.imports.publisher, name).contains(
        releases_before(store, name)[j],
    ) by {
        assert(model.publisher_flags(name)[j]);
        let n = preserve::lemma_retained(
            u.imports.publisher,
            live.publisher,
            |name: Seq<char>| model.publisher_flags(name),
            name,
            j,
        );
        assert(sorted_map::views_at(u.imports.publisher, name)[n] =~= releases_before(
            store,
            name,
        )[j]);
    }
}

/// If no pruning of imports is asked for, and no proof rests on anything fresh,
/// then everything that is stored of the imports of a package stays: audits,
/// wildcard audits and releases.
pub proof fn law_stored_imports_stay(
    graph: PackageGraph,
    resolver: CargoResolverVersion,
    b: UpdateBasis,
    store: Store,
    modes: UpdateModes,
    u: StoreUpdates,
    name: Seq<char>,
)
    requires
        b.holds(graph, resolver, store, modes),
        b.model(store, modes).updates(u),
        !modes.at(name).prune_imports,
        !is_relied_on(
            b,
            store,
            modes,
            name,
            |o: DeltaEdgeOriginView| rests_on_fresh(store, name, o),
        ),
    ensures
        stored_imports_stay(store, u.imports, name),
{
    lemma_no_pruning(graph, resolver, b, store, modes, name);
    lemma_stay(graph, resolver, b, store, modes, u, name);
}

/// If an update is not asked to prune imports, and no proof rests on anything fresh,
/// then everything that was stored of the imports of a package is still in the store.
/// What else the store holds does not change, but for its own audits and its
/// exemptions.
pub proof fn law_update_keeps_stored_imports(
    graph: PackageGraph,
    resolver: CargoResolverVersion,
    before: Store,
    modes: UpdateModes,
    u: StoreUpdates,
    after: Store,
    name: Seq<char>,
)
    requires
        call_ensures(get_store_updates, (&graph, resolver, &before, &modes), u),
        after == u.applied(before),
    ensures
        !modes.at(name).prune_imports && (forall|b: UpdateBasis| #[trigger]
            b.holds(graph, resolver, before, modes) ==> !is_relied_on(
                b,
                before,
                modes,
                name,
                |o: DeltaEdgeOriginView| rests_on_fresh(before, name, o),
            )) ==> stored_imports_stay(before, after.imports, name),
        after.live_imports == before.live_imports,
        after.config == (ConfigFile { exemptions: after.config.exemptions, ..before.config }),
        after.audits == (AuditsFile { audits: after.audits.audits, ..before.audits }),
        after.imports == u.imports,
        after.audits.audits == u.audits,
        after.config.exemptions == u.exemptions,
{
    let b = choose|b: UpdateBasis| #[trigger]
        b.holds(graph, resolver, before, modes) && b.model(before, modes).updates(u);
    if !modes.at(name).prune_imports && (forall|b: UpdateBasis| #[trigger]
        b.holds(graph, resolver, before, modes) ==> !is_relied_on(
            b,
            before,
            modes,
            name,
            |o: DeltaEdgeOriginView| rests_on_fresh(before, name, o),
        )) {
        law_stored_imports_stay(graph, resolver, b, before, modes, u, name);
    }
}

/// Of packages that cannot be vetted everything that is stored stays, and nothing
/// fresh is imported but violations.
pub proof fn law_unvettable_packages_keep_what_is_stored(
    graph: PackageGraph,
    resolver: CargoResolverVersion,
    b: UpdateBasis,
    store: Store,
    modes: UpdateModes,
    u: StoreUpdates,
    name: Seq<char>,
)
    requires
        b.holds(graph, resolver, store, modes),
        b.model(store, modes).updates(u),
        is_stuck(b, store, modes, name),
    ensures
        stored_imports_stay(store, u.imports, name),
        sorted_map::views_at(u.audits, name) == sorted_map::views_at(store.audits.audits, name),
        forall|f: int, x: AuditEntryView|
            0 <= f < conflicts::imports_of(store).audits.entries().len() && #[trigger]
                imported_audits(u.imports, f, name).contains(x) && !(x.kind is Violation)
                ==> audits_before(store, f, name).contains(x),
        forall|f: int, x: WildcardEntryView|
            0 <= f < conflicts::imports_of(store).audits.entries().len() && #[trigger]
                imported_wildcards(u.imports, f, name).contains(x) ==> wildcards_before(
                store,
                f,
                name,
            ).contains(x),
        forall|x: CratesPublisherView| #[trigger]
            sorted_map::views_at(u.imports.publisher, name).contains(x) ==> releases_before(
                store,
                name,
            ).contains(x),
{
    let model = b.model(store, modes);
    let live = store.live();
    lemma_stuck(graph, resolver, b, store, modes, name);
    lemma_stay(graph, resolver, b, store, modes, u, name);
    lemma_all_kept(sorted_map::views_at(store.audits.audits, name), model.local_flags(name));
    assert forall|f: int, x: AuditEntryView|
        0 <= f < live.audits.entries().len() && #[trigger] imported_audits(u.imports, f, name).contains(x)
            && !(x.kind is Violation) implies audits_before(store, f, name).contains(x) by {
        assert(model.updates_import(f, u.imports.audits.entries()[f].1));
        let j = lemma_left(
            u.imports.audits.entries()[f].1.audits,
            live.audits.entries()[f].1.audits,
            |name: Seq<char>| model.audit_flags(f, name),
            name,
            x,
        );
        assert(audits_before(store, f, name)[j] =~= x);
    }
    assert forall|f: int, x: WildcardEntryView|
        0 <= f < live.audits.entries().len() && #[trigger] imported_wildcards(u.imports, f, name).contains(
            x,
        ) implies wildcards_before(store, f, name).contains(x) by {
        assert(model.updates_import(f, u.imports.audits.entries()[f].1));
        let j = lemma_left(
            u.imports.audits.entries()[f].1.wildcard_audits,
            live.audits.entries()[f].1.wildcard_audits,
            |name: Seq<char>| model.wildcard_flags(f, name),
            name,
            x,
        );
        assert(wildcards_before(store, f, name)[j] =~= x);
    }
    assert forall|x: CratesPublisherView| #[trigger]
        sorted_map::views_at(u.imports.publisher, name).contains(x) implies releases_before(
        store,
        name,
    ).contains(x) by {
        let j = lemma_left(
            u.imports.publisher,
            live.publisher,
            |name: Seq<char>| model.publisher_flags(name),
            name,
            x,
        );
        assert(releases_before(store, name)[j] =~= x);
    }
}

proof fn lemma_all_kept<V>(list: Seq<V>, flags: Seq<bool>)
    requires
        forall|j: int| 0 <= j < list.len() ==> #[trigger] flags[j],
    ensures
        retain::kept(list, flags) == list,
    decreases list.len(),
{
    if list.len() > 0 {
        assert(flags[list.len() - 1]);
        lemma_all_kept(list.drop_last(), flags);
        assert(list.drop_last().push(list.last()) =~= list);
    }
}

/// Imported violations of packages of the build are always stored.
pub proof fn law_violations_are_imported(
    graph: PackageGraph,
    resolver: CargoResolverVersion,
    b: UpdateBasis,
    store: Store,
    modes: UpdateModes,
    u: StoreUpdates,
    name: Seq<char>,
    f: int,
    j: int,
)
    requires
        b.holds(graph, resolver, store, modes),
        b.model(store, modes).updates(u),
        is_in_build(b, name),
        0 <= f < conflicts::imports_of(store).audits.entries().len(),
        0 <= j < audits_before(store, f, name).len(),
        audits_before(store, f, name)[j].kind is Violation,
    ensures
        imported_audits(u.imports, f, name).contains(
            (AuditEntryView { is_fresh_import: false, ..audits_before(store, f, name)[j] }),
        ),
{
    let model = b.model(store, modes);
    let live = store.live();
    lemma_stuck(graph, resolver, b, store, modes, name);
    assert(u.imports.audits.keys().len() == live.audits.keys().len());
    assert(model.updates_import(f, u.imports.audits.entries()[f].1));
    assert(model.audit_flags(f, name)[j]);
    let n = preserve::lemma_retained(
        u.imports.audits.entries()[f].1.audits,
        live.audits.entries()[f].1.audits,
        |name: Seq<char>| model.audit_flags(f, name),
        name,
        j,
    );
    assert(imported_audits(u.imports, f, name)[n] =~= (AuditEntryView {
        is_fresh_import: false,
        ..audits_before(store, f, name)[j]
    }));
}

/// Whether a kept entry has a reason to be kept: a proof rests on it, or it was
/// stored before, and either no pruning was asked for or the packages cannot be
/// vetted.
pub open spec fn has_reason(
    b: UpdateBasis,
    store: Store,
    modes: UpdateModes,
    name: Seq<char>,
    pruned: bool,
    is_fresh: bool,
    wanted: spec_fn(DeltaEdgeOriginView) -> bool,
) -> bool {
    ||| is_relied_on(b, store, modes, name, wanted)
    ||| !is_fresh && (!pruned || is_stuck(b, store, modes, name))
}

proof fn lemma_reason(
    graph: PackageGraph,
    resolver: CargoResolverVersion,
    b: UpdateBasis,
    store: Store,
    modes: UpdateModes,
    name: Seq<char>,
    pruned: bool,
    prune: bool,
    is_fresh: bool,
    e: RequiredEntryView,
    wanted: spec_fn(DeltaEdgeOriginView) -> bool,
)
    requires
        b.holds(graph, resolver, store, modes),
        pruned ==> prune,
        b.model(store, modes).keeps(name, prune, is_fresh, e),
        forall|o: DeltaEdgeOriginView| required::needs(o, e) ==> #[trigger] wanted(o),
    ensures
        has_reason(b, store, modes, name, pruned, is_fresh, wanted),
{
    lemma_stuck(graph, resolver, b, store, modes, name);
    if b.model(store, modes).needs(name, e) {
        let (path, x) = lemma_relied(graph, resolver, b, store, modes, name, e);
        assert(wanted(path[x]));
    }
}

/// What is stored of the imports of a package after an update was there before,
/// fetched or stored, and has a reason to stay. Violations of packages of the build
/// need none.
pub proof fn law_imports_have_reasons(
    graph: PackageGraph,
    resolver: CargoResolverVersion,
    b: UpdateBasis,
    store: Store,
    modes: UpdateModes,
    u: StoreUpdates,
    name: Seq<char>,
    f: int,
)
    requires
        b.holds(graph, resolver, store, modes),
        b.model(store, modes).updates(u),
        0 <= f < conflicts::imports_of(store).audits.entries().len(),
    ensures
        forall|x: AuditEntryView| #[trigger]
            imported_audits(u.imports, f, name).contains(x) ==> exists|j: int|
                0 <= j < audits_before(store, f, name).len() && x == (AuditEntryView {
                    is_fresh_import: false,
                    ..#[trigger] audits_before(store, f, name)[j]
                }) && (x.kind is Violation && is_in_build(b, name) || has_reason(
                    b,
                    store,
                    modes,
                    name,
                    modes.at(name).prune_imports,
                    audits_before(store, f, name)[j].is_fresh_import,
                    |o: DeltaEdgeOriginView|
                        o == DeltaEdgeOriginView::ImportedAudit {
                            import_index: f as usize,
                            audit_index: j as usize,
                        },
                )),
        forall|x: WildcardEntryView| #[trigger]
            imported_wildcards(u.imports, f, name).contains(x) ==> exists|j: int|
                0 <= j < wildcards_before(store, f, name).len() && x == (WildcardEntryView {
                    is_fresh_import: false,
                    ..#[trigger] wildcards_before(store, f, name)[j]
                }) && has_reason(
                    b,
                    store,
                    modes,
                    name,
                    modes.at(name).prune_imports,
                    wildcards_before(store, f, name)[j].is_fresh_import,
                    |o: DeltaEdgeOriginView|
                        o matches DeltaEdgeOriginView::WildcardAudit {
                            import_index,
                            audit_index,
                            ..
                        } && import_index == Some(f as usize) && audit_index == j as usize,
                ),
        forall|x: CratesPublisherView| #[trigger]
            sorted_map::views_at(u.imports.publisher, name).contains(x) ==> exists|j: int|
                0 <= j < releases_before(store, name).len() && x == (CratesPublisherView {
                    is_fresh_import: false,
                    ..#[trigger] releases_before(store, name)[j]
                }) && has_reason(
                    b,
                    store,
                    modes,
                    name,
                    modes.at(name).prune_imports,
                    releases_before(store, name)[j].is_fresh_import,
                    |o: DeltaEdgeOriginView|
                        (o matches DeltaEdgeOriginView::WildcardAudit { publisher_index, .. }
                            && publisher_index == j as usize) || o
                            == (DeltaEdgeOriginView::Trusted { publisher_index: j as usize }),
                ),
{
    let model = b.model(store, modes);
    let live = store.live();
    let mode = modes.at(name);
    lemma_stuck(graph, resolver, b, store, modes, name);
    assert(u.imports.audits.keys().len() == live.audits.keys().len());
    assert(model.updates_import(f, u.imports.audits.entries()[f].1));
    assert forall|x: AuditEntryView| #[trigger]
        imported_audits(u.imports, f, name).contains(x) implies exists|j: int|
        0 <= j < audits_before(store, f, name).len() && x == (AuditEntryView {
            is_fresh_import: false,
            ..#[trigger] audits_before(store, f, name)[j]
        }) && (x.kind is Violation && is_in_build(b, name) || has_reason(
            b,
            store,
            modes,
            name,
            modes.at(name).prune_imports,
            audits_before(store, f, name)[j].is_fresh_import,
            |o: DeltaEdgeOriginView|
                o == DeltaEdgeOriginView::ImportedAudit {
                    import_index: f as usize,
                    audit_index: j as usize,
                },
        )) by {
        let j = lemma_left(
            u.imports.audits.entries()[f].1.audits,
            live.audits.entries()[f].1.audits,
            |name: Seq<char>| model.audit_flags(f, name),
            name,
            x,
        );
        assert(model.audit_flags(f, name)[j]);
        let old_entry = audits_before(store, f, name)[j];
        assert(x =~= (AuditEntryView { is_fresh_import: false, ..old_entry }));
        if !(x.kind is Violation && is_in_build(b, name)) {
            let e = RequiredEntryView::Audit { import_index: f as usize, audit_index: j as usize };
            let prune = model.prunes_imports(name);
            if old_entry.kind is Violation {
                assert(!prune && !old_entry.is_fresh_import);
            }
            lemma_reason(
                graph,
                resolver,
                b,
                store,
                modes,
                name,
                mode.prune_imports,
                prune,
                old_entry.is_fresh_import,
                e,
                |o: DeltaEdgeOriginView|
                    o == DeltaEdgeOriginView::ImportedAudit {
                        import_index: f as usize,
                        audit_index: j as usize,
                    },
            );
        }
    }
    assert forall|x: WildcardEntryView| #[trigger]
        imported_wildcards(u.imports, f, name).contains(x) implies exists|j: int|
        0 <= j < wildcards_before(store, f, name).len() && x == (WildcardEntryView {
            is_fresh_import: false,
            ..#[trigger] wildcards_before(store, f, name)[j]
        }) && has_reason(
            b,
            store,
            modes,
            name,
            modes.at(name).prune_imports,
            wildcards_before(store, f, name)[j].is_fresh_import,
            |o: DeltaEdgeOriginView|
                o matches DeltaEdgeOriginView::WildcardAudit { import_index, audit_index, .. }
                    && import_index == Some(f as usize) && audit_index == j as usize,
        ) by {
        let j = lemma_left(
            u.imports.audits.entries()[f].1.wildcard_audits,
            live.audits.entries()[f].1.wildcard_audits,
            |name: Seq<char>| model.wildcard_flags(f, name),
            name,
            x,
        );
        assert(model.wildcard_flags(f, name)[j]);
        let old_entry = wildcards_before(store, f, name)[j];
        assert(x =~= (WildcardEntryView { is_fresh_import: false, ..old_entry }));
        lemma_reason(
            graph,
            resolver,
            b,
            store,
            modes,
            name,
            mode.prune_imports,
            model.prunes_imports(name),
            old_entry.is_fresh_import,
            RequiredEntryView::WildcardAudit { import_index: f as usize, audit_index: j as usize },
            |o: DeltaEdgeOriginView|
                o matches DeltaEdgeOriginView::WildcardAudit { import_index, audit_index, .. }
                    && import_index == Some(f as usize) && audit_index == j as usize,
        );
    }
    assert forall|x: CratesPublisherView| #[trigger]
        sorted_map::views_at(u.imports.publisher, name).contains(x) implies exists|j: int|
        0 <= j < releases_before(store, name).len() && x == (CratesPublisherView {
            is_fresh_import: false,
            ..#[trigger] releases_before(store, name)[j]
        }) && has_reason(
            b,
            store,
            modes,
            name,
            modes.at(name).prune_imports,
            releases_before(store, name)[j].is_fresh_import,
            |o: DeltaEdgeOriginView|
                (o matches DeltaEdgeOriginView::WildcardAudit { publisher_index, .. }
                    && publisher_index == j as usize) || o == (DeltaEdgeOriginView::Trusted {
                    publisher_index: j as usize,
                }),
        ) by {
        let j = lemma_left(
            u.imports.publisher,
            live.publisher,
            |name: Seq<char>| model.publisher_flags(name),
            name,
            x,
        );
        assert(model.publisher_flags(name)[j]);
        let old_entry = releases_before(store, name)[j];
        assert(x =~= (CratesPublisherView { is_fresh_import: false, ..old_entry }));
        lemma_reason(
            graph,
            resolver,
            b,
            store,
            modes,
            name,
            mode.prune_imports,
            model.prunes_imports(name),
            old_entry.is_fresh_import,
            RequiredEntryView::Publisher { publisher_index: j as usize },
            |o: DeltaEdgeOriginView|
                (o matches DeltaEdgeOriginView::WildcardAudit { publisher_index, .. }
                    && publisher_index == j as usize) || o == (DeltaEdgeOriginView::Trusted {
                    publisher_index: j as usize,
                }),
        );
    }
}

/// The imports keep their names, and their criteria with all that is said of them.
/// Trusted sources are never imported.
pub proof fn law_imports_keep_names_and_criteria(
    graph: PackageGraph,
    resolver: CargoResolverVersion,
    b: UpdateBasis,
    store: Store,
    modes: UpdateModes,
    u: StoreUpdates,
    f: int,
    k: int,
)
    requires
        b.holds(graph, resolver, store, modes),
        b.model(store, modes).updates(u),
    ensures
        ({
            let before = conflicts::imports_of(store).audits.entries();
            let after = u.imports.audits.entries();
            &&& after.len() == before.len()
            &&& 0 <= f < before.len() ==> {
                let x = before[f].1.criteria.entries();
                let y = after[f].1.criteria.entries();
                &&& after[f].0@ == before[f].0@
                &&& after[f].1.trusted.entries().len() == 0
                &&& y.len() == x.len()
                &&& 0 <= k < x.len() ==> y[k].0@ == x[k].0@ && y[k].1@ == x[k].1@
            }
        }),
{
    let live = store.live();
    let model = b.model(store, modes);
    assert(u.imports.audits.keys().len() == live.audits.keys().len());
    if 0 <= f < live.audits.entries().len() {
        assert(u.imports.audits.keys()[f] == live.audits.keys()[f]);
        assert(model.updates_import(f, u.imports.audits.entries()[f].1));
        let x = live.audits.entries()[f].1.criteria;
        let y = u.imports.audits.entries()[f].1.criteria;
        assert(y.keys().len() == x.keys().len());
        if 0 <= k < x.entries().len() {
            assert(y.keys()[k] == x.keys()[k]);
            assert(y.entries()[k].1@ == x.entries()[k].1@);
        }
    }
}

/// Own audits are dropped only where that is asked for, of packages of the build
/// that can be vetted, and only those that nobody may import and that no proof that
/// was found rests on. What is left was there before.
pub proof fn law_own_audits_have_reasons(
    graph: PackageGraph,
    resolver: CargoResolverVersion,
    b: UpdateBasis,
    store: Store,
    modes: UpdateModes,
    u: StoreUpdates,
    name: Seq<char>,
)
    requires
        b.holds(graph, resolver, store, modes),
        b.model(store, modes).updates(u),
    ensures
        ({
            let before = sorted_map::views_at(store.audits.audits, name);
            let after = sorted_map::views_at(u.audits, name);
            let pruned = modes.at(name).prune_non_importable_audits && is_in_build(b, name)
                && !is_stuck(b, store, modes, name);
            &&& !pruned ==> after == before
            &&& forall|j: int|
                0 <= j < before.len() && (#[trigger] before[j]).importable ==> after.contains(
                    before[j],
                )
            &&& forall|x: AuditEntryView| #[trigger]
                after.contains(x) ==> exists|j: int|
                    0 <= j < before.len() && #[trigger] before[j] == x && (!pruned || x.importable
                        || is_relied_on(
                        b,
                        store,
                        modes,
                        name,
                        |o: DeltaEdgeOriginView|
                            o matches DeltaEdgeOriginView::StoredLocalAudit { audit_index, .. }
                                && audit_index == j as usize,
                    ))
        }),
{
    let model = b.model(store, modes);
    let before = sorted_map::views_at(store.audits.audits, name);
    let after = sorted_map::views_at(u.audits, name);
    let flags = model.local_flags(name);
    lemma_stuck(graph, resolver, b, store, modes, name);
    assert(after == retain::kept(before, flags));
    if !(modes.at(name).prune_non_importable_audits && is_in_build(b, name) && !is_stuck(
        b,
        store,
        modes,
        name,
    )) {
        lemma_all_kept(before, flags);
    }
    assert forall|j: int| 0 <= j < before.len() && (
    #[trigger] before[j]).importable implies after.contains(before[j]) by {
        let n = retain::lemma_kept_has(before, flags, j);
        assert(after[n] == before[j]);
    }
    assert forall|x: AuditEntryView| #[trigger] after.contains(x) implies exists|j: int|
        0 <= j < before.len() && #[trigger] before[j] == x && (!(modes.at(
            name,
        ).prune_non_importable_audits && is_in_build(b, name) && !is_stuck(b, store, modes, name))
            || x.importable || is_relied_on(
            b,
            store,
            modes,
            name,
            |o: DeltaEdgeOriginView|
                o matches DeltaEdgeOriginView::StoredLocalAudit { audit_index, .. } && audit_index
                    == j as usize,
        )) by {
        let j = retain::lemma_kept_member(before, flags, x);
        let e = RequiredEntryView::LocalAudit { audit_index: j as usize };
        let wanted = |o: DeltaEdgeOriginView|
            o matches DeltaEdgeOriginView::StoredLocalAudit { audit_index, .. } && audit_index
                == j as usize;
        if model.needs(name, e) {
            let (path, y) = lemma_relied(graph, resolver, b, store, modes, name, e);
            assert(wanted(path[y]));
        }
        assert(before[j] == x);
    }
}

proof fn lemma_dedup_from<V>(s: Seq<V>, x: V)
    requires
        retain::dedup(s).contains(x),
    ensures
        s.contains(x),
    decreases s.len(),
{
    let r = retain::dedup(s);
    let n = choose|n: int| 0 <= n < r.len() && r[n] == x;
    if s.len() > 1 {
        let t = s.drop_last();
        if n < retain::dedup(t).len() {
            assert(retain::dedup(t)[n] == x);
            assert(retain::dedup(t).contains(x));
            lemma_dedup_from(t, x);
            let j = choose|j: int| 0 <= j < t.len() && t[j] == x;
            assert(s[j] == x);
        } else {
            assert(s[s.len() - 1] == x);
        }
    } else {
        assert(s[0] == x);
    }
}

/// Stored unpublished entries stay, unless exemptions are pruned; and what is left
/// was there before and has a reason to stay.
pub proof fn law_unpublished_entries_have_reasons(
    graph: PackageGraph,
    resolver: CargoResolverVersion,
    b: UpdateBasis,
    store: Store,
    modes: UpdateModes,
    u: StoreUpdates,
    name: Seq<char>,
)
    requires
        b.holds(graph, resolver, store, modes),
        b.model(store, modes).updates(u),
    ensures
        ({
            let before = unpublished_before(store, name);
            let after = sorted_map::views_at(u.imports.unpublished, name);
            &&& forall|j: int|
                0 <= j < before.len() && !(#[trigger] before[j]).is_fresh_import && (!modes.at(
                    name,
                ).prune_exemptions || is_stuck(b, store, modes, name)) ==> after.contains(before[j])
            &&& forall|x: UnpublishedEntryView| #[trigger]
                after.contains(x) ==> exists|j: int|
                    0 <= j < before.len() && x == (UnpublishedEntryView {
                        is_fresh_import: false,
                        ..#[trigger] before[j]
                    }) && has_reason(
                        b,
                        store,
                        modes,
                        name,
                        modes.at(name).prune_exemptions,
                        before[j].is_fresh_import,
                        |o: DeltaEdgeOriginView|
                            o == (DeltaEdgeOriginView::Unpublished { unpublished_index: j as usize }),
                    )
        }),
{
    let model = b.model(store, modes);
    let before = unpublished_before(store, name);
    let after = sorted_map::views_at(u.imports.unpublished, name);
    let flags = model.unpublished_flags(name);
    let kept = retain::kept(before, flags);
    let wanted = retain::kept_imports::<UnpublishedEntry>(before, flags);
    let found = u.imports.unpublished.get_spec(name);
    lemma_stuck(graph, resolver, b, store, modes, name);
    assert(update::is_listed_once(found, wanted));
    assert forall|j: int|
        0 <= j < before.len() && !(#[trigger] before[j]).is_fresh_import && (!modes.at(
            name,
        ).prune_exemptions || is_stuck(b, store, modes, name)) implies after.contains(
        before[j],
    ) by {
        assert(flags[j]);
        let n = retain::lemma_kept_has(before, flags, j);
        assert(wanted[n] =~= before[j]);
        assert(wanted.contains(before[j]));
        let l = found->0;
        let s = choose|s: Seq<UnpublishedEntry>| #[trigger]
            order::is_arrangement(s, wanted) && sorted_map::views(l@) == retain::dedup(
                sorted_map::views(s),
            );
        let v = s.map_values(|y: UnpublishedEntry| y@);
        assert(v =~= sorted_map::views(s));
        preserve::lemma_same_items(wanted, v, before[j]);
        let k = choose|k: int| 0 <= k < v.len() && v[k] == before[j];
        let y = preserve::lemma_dedup_has(v, k);
        assert(after[y] == before[j]);
    }
    assert forall|x: UnpublishedEntryView| #[trigger] after.contains(x) implies exists|j: int|
        0 <= j < before.len() && x == (UnpublishedEntryView {
            is_fresh_import: false,
            ..#[trigger] before[j]
        }) && has_reason(
            b,
            store,
            modes,
            name,
            modes.at(name).prune_exemptions,
            before[j].is_fresh_import,
            |o: DeltaEdgeOriginView|
                o == (DeltaEdgeOriginView::Unpublished { unpublished_index: j as usize }),
        ) by {
        let l = found->0;
        let s = choose|s: Seq<UnpublishedEntry>| #[trigger]
            order::is_arrangement(s, wanted) && sorted_map::views(l@) == retain::dedup(
                sorted_map::views(s),
            );
        let v = s.map_values(|y: UnpublishedEntry| y@);
        assert(v =~= sorted_map::views(s));
        lemma_dedup_from(v, x);
        preserve::lemma_same_items(v, wanted, x);
        let n = choose|n: int| 0 <= n < wanted.len() && wanted[n] == x;
        assert(kept.contains(kept[n]));
        let j = retain::lemma_kept_member(before, flags, kept[n]);
        assert(x =~= (UnpublishedEntryView { is_fresh_import: false, ..before[j] }));
        lemma_reason(
            graph,
            resolver,
            b,
            store,
            modes,
            name,
            modes.at(name).prune_exemptions,
            modes.at(name).prune_exemptions,
            before[j].is_fresh_import,
            RequiredEntryView::Unpublished { unpublished_index: j as usize },
            |o: DeltaEdgeOriginView|
                o == (DeltaEdgeOriginView::Unpublished { unpublished_index: j as usize }),
        );
    }
}

} // verus!
