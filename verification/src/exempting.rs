//! What an update of the store exempts from.

use vstd::prelude::*;
use guppy::graph::cargo::CargoResolverVersion;
use guppy::graph::PackageGraph;
use crate::audit_graph;
use crate::criteria;
use crate::criteria::{CriteriaMapper, CriteriaSet};
use crate::demands;
use crate::edges::{DeltaEdgeOriginView, RequiredEntryView};
use crate::implications;
use crate::keeping;
use crate::order;
use crate::preserve;
use crate::records::{ExemptedDependency, ExemptedDependencyView, Store};
use crate::required;
use crate::required::Demand;
use crate::retain;
use crate::sorted_map;
use crate::update;
use crate::update::{StoreUpdates, UpdateBasis, UpdateModes};

verus! {

/// Whether a proof of a criterion that a search can find rests on an origin.
pub open spec fn is_relied_on_for(
    b: UpdateBasis,
    store: Store,
    modes: UpdateModes,
    name: Seq<char>,
    i: int,
    o: DeltaEdgeOriginView,
) -> bool {
    exists|p: int, path: Seq<DeltaEdgeOriginView>|
        keeping::is_asked(b, store, name, p, i) && path.contains(o)
            && #[trigger] audit_graph::to_root(
            audit_graph::store_edges(store, b.mapper, name, None),
            i,
            b.packages[p].version@,
            modes.at(name).search_mode,
        ).can_find(path)
}

/// The exemptions of a package before an update.
pub open spec fn exemptions_before(store: Store, name: Seq<char>) -> Seq<ExemptedDependencyView> {
    sorted_map::views_at(store.config.exemptions, name)
}

/// Whether an exemption goes back to one that was there: the version stays, and so do
/// the notes and whether it is suggested to replace it.
pub open spec fn is_kept(x: ExemptedDependencyView, entry: ExemptedDependencyView) -> bool {
    x.version == entry.version && x.suggest == entry.suggest && x.notes == entry.notes
}

/// Whether an exemption was made by an update: it is suggested to replace it, and
/// there are no notes.
pub open spec fn is_made(x: ExemptedDependencyView) -> bool {
    x.suggest && x.notes is None
}

/// Whether an exemption may be from a criterion, as one that was there or beside it: a
/// proof rests on the old one for the criterion, or the old one was from it, and
/// either exemptions are not pruned or the package cannot be vetted. One that is not
/// to be replaced is from no more than before.
pub open spec fn is_due(
    b: UpdateBasis,
    store: Store,
    modes: UpdateModes,
    name: Seq<char>,
    x: ExemptedDependencyView,
    k: int,
    j: int,
) -> bool {
    let entry = exemptions_before(store, name)[k];
    let was = criteria::criteria_of(b.mapper, entry.criteria).has(j);
    &&& is_relied_on_for(
        b,
        store,
        modes,
        name,
        j,
        DeltaEdgeOriginView::Exemption { exemption_index: k as usize },
    ) || was && (!x.suggest || !modes.at(name).prune_exemptions || keeping::is_stuck(
        b,
        store,
        modes,
        name,
    ))
    &&& !x.suggest ==> was
}

spec fn entry_of(k: int) -> RequiredEntryView {
    RequiredEntryView::Exemption { exemption_index: k as usize }
}

proof fn lemma_relied_for(
    graph: PackageGraph,
    resolver: CargoResolverVersion,
    b: UpdateBasis,
    store: Store,
    modes: UpdateModes,
    name: Seq<char>,
    e: RequiredEntryView,
    o: DeltaEdgeOriginView,
    j: int,
)
    requires
        b.holds(graph, resolver, store, modes),
        b.model(store, modes).criteria_for(name, e).has(j),
        forall|x: DeltaEdgeOriginView| #[trigger] required::needs(x, e) ==> x == o,
    ensures
        is_relied_on_for(b, store, modes, name, j, o),
        implications::is_named(b.mapper, j),
{
    CriteriaSet::lemma_empty();
    let d = Demand {
        store,
        mapper: b.mapper,
        packages: b.packages,
        requirements: b.requirements,
        name,
        mode: modes.at(name).search_mode,
    };
    assert(update::is_required(
        store,
        b.mapper,
        b.packages,
        b.requirements,
        modes,
        name,
        b.required.get_spec(name),
    ));
    let entries = b.required.get_spec(name)->0->0;
    let paths = choose|paths: Map<(int, int), Seq<DeltaEdgeOriginView>>| #[trigger]
        d.is_proof(paths) && entries.collects(paths);
    assert(entries.has_for(e, j));
    assert(required::is_used_for(paths, e, j));
    let p = choose|p: int| #[trigger]
        paths.dom().contains((p, j)) && required::uses(paths[(p, j)], e);
    let path = paths[(p, j)];
    let x = choose|x: int| 0 <= x < path.len() && required::needs(#[trigger] path[x], e);
    assert(d.needs(p, j));
    assert(path[x] == o);
    assert(path.contains(o));
    assert(keeping::is_asked(b, store, name, p, j));
    assert(d.query(p, j).can_find(path));
    preserve::lemma_requirements_nameable(graph, resolver, store, modes, b);
    assert(demands::is_nameable(b.mapper, b.requirements[p]));
}

/// Names that are written for criteria stand for no more than what these imply.
proof fn lemma_written_for(m: CriteriaMapper, s: CriteriaSet, i: int) -> (j: int)
    requires
        m.wf(),
        forall|j: int| #[trigger] s.has(j) ==> implications::is_named(m, j),
        criteria::criteria_of(m, criteria::names_of(m, s)).has(i),
    ensures
        s.has(j),
        m.implies_index(j, i),
{
    let names = criteria::names_of(m, s);
    let l = criteria::minimal(m, s);
    criteria::lemma_minimal(m, s);
    let (x, k) = implications::lemma_named_by(m, names, i);
    let j = l[x] as int;
    assert(s.has(j));
    assert(implications::is_named(m, j));
    assert(names[x] == m.names@[j]@);
    j
}

proof fn lemma_revised_all(
    b: UpdateBasis,
    store: Store,
    modes: UpdateModes,
    name: Seq<char>,
    list: Seq<ExemptedDependencyView>,
    x: ExemptedDependencyView,
) -> (k: int)
    requires
        b.model(store, modes).revised_all(name, list).contains(x),
    ensures
        0 <= k < list.len(),
        b.model(store, modes).revised(name, k, list[k]).contains(x),
    decreases list.len(),
{
    let model = b.model(store, modes);
    let all = model.revised_all(name, list);
    let n = choose|n: int| 0 <= n < all.len() && all[n] == x;
    let rest = model.revised_all(name, list.drop_last());
    if n < rest.len() {
        assert(rest[n] == x);
        lemma_revised_all(b, store, modes, name, list.drop_last(), x)
    } else {
        let last = model.revised(name, list.len() - 1, list.last());
        assert(last[n - rest.len()] == x);
        list.len() - 1
    }
}

proof fn lemma_all_revised(
    b: UpdateBasis,
    store: Store,
    modes: UpdateModes,
    name: Seq<char>,
    list: Seq<ExemptedDependencyView>,
    k: int,
    x: ExemptedDependencyView,
)
    requires
        0 <= k < list.len(),
        b.model(store, modes).revised(name, k, list[k]).contains(x),
    ensures
        b.model(store, modes).revised_all(name, list).contains(x),
    decreases list.len(),
{
    let model = b.model(store, modes);
    let all = model.revised_all(name, list);
    let rest = model.revised_all(name, list.drop_last());
    if k < list.len() - 1 {
        lemma_all_revised(b, store, modes, name, list.drop_last(), k, x);
        let n = choose|n: int| 0 <= n < rest.len() && rest[n] == x;
        assert(all[n] == x);
    } else {
        let last = model.revised(name, list.len() - 1, list.last());
        let n = choose|n: int| 0 <= n < last.len() && last[n] == x;
        assert(all[rest.len() + n] == x);
    }
}

proof fn lemma_new(
    m: CriteriaMapper,
    list: Seq<(RequiredEntryView, CriteriaSet)>,
    x: ExemptedDependencyView,
) -> (n: int)
    requires
        update::new_exemptions(m, list).contains(x),
    ensures
        0 <= n < list.len(),
        list[n].0 == (RequiredEntryView::FreshExemption { version: x.version }),
        x.criteria == criteria::names_of(m, list[n].1),
        is_made(x),
    decreases list.len(),
{
    let all = update::new_exemptions(m, list);
    let rest = update::new_exemptions(m, list.drop_last());
    let y = choose|y: int| 0 <= y < all.len() && all[y] == x;
    if y < rest.len() {
        assert(rest[y] == x);
        lemma_new(m, list.drop_last(), x)
    } else {
        list.len() - 1
    }
}

proof fn lemma_listed(
    b: UpdateBasis,
    store: Store,
    modes: UpdateModes,
    u: StoreUpdates,
    name: Seq<char>,
    x: ExemptedDependencyView,
)
    requires
        b.model(store, modes).updates(u),
    ensures
        sorted_map::views_at(u.exemptions, name).contains(x) <==> b.model(
            store,
            modes,
        ).exemptions(name).contains(x),
{
    let wanted = b.model(store, modes).exemptions(name);
    let found = u.exemptions.get_spec(name);
    assert(retain::is_listed(found, wanted));
    let after = sorted_map::views_at(u.exemptions, name);
    if found is Some {
        let l = found->0;
        assert(order::is_arrangement(l@, wanted));
        let v = l@.map_values(|y: ExemptedDependency| y@);
        assert(after =~= v);
        if v.contains(x) {
            preserve::lemma_same_items(v, wanted, x);
        }
        if wanted.contains(x) {
            preserve::lemma_same_items(wanted, v, x);
        }
    } else {
        assert(after.len() == 0);
        assert(wanted.len() == 0);
    }
}

/// What an exemption is due to.
pub open spec fn has_cause(
    b: UpdateBasis,
    store: Store,
    modes: UpdateModes,
    name: Seq<char>,
    x: ExemptedDependencyView,
) -> bool {
    ||| exists|k: int|
        {
            &&& 0 <= k < exemptions_before(store, name).len()
            &&& is_kept(x, #[trigger] exemptions_before(store, name)[k]) || (is_made(x)
                && !exemptions_before(store, name)[k].suggest && x.version == exemptions_before(
                store,
                name,
            )[k].version)
            &&& forall|i: int| #[trigger]
                criteria::criteria_of(b.mapper, x.criteria).has(i) ==> exists|j: int|
                    b.mapper.implies_index(j, i) && #[trigger] is_due(
                        b,
                        store,
                        modes,
                        name,
                        x,
                        k,
                        j,
                    )
        }
    ||| is_made(x) && forall|i: int| #[trigger]
        criteria::criteria_of(b.mapper, x.criteria).has(i) ==> exists|j: int|
            b.mapper.implies_index(j, i) && #[trigger] is_relied_on_for(
                b,
                store,
                modes,
                name,
                j,
                DeltaEdgeOriginView::FreshExemption { version: x.version },
            )
}

/// Every exemption after an update goes back to one that was there, or was made for a
/// version that a proof exempts afresh; and it is only from what it is needed for, or
/// was from before if nothing is dropped.
pub proof fn law_exemptions_have_causes(
    graph: PackageGraph,
    resolver: CargoResolverVersion,
    b: UpdateBasis,
    store: Store,
    modes: UpdateModes,
    u: StoreUpdates,
    name: Seq<char>,
    x: ExemptedDependencyView,
)
    requires
        b.holds(graph, resolver, store, modes),
        b.model(store, modes).updates(u),
        sorted_map::views_at(u.exemptions, name).contains(x),
    ensures
        has_cause(b, store, modes, name, x),
{
    let m = b.mapper;
    let model = b.model(store, modes);
    let list = exemptions_before(store, name);
    lemma_listed(b, store, modes, u, name, x);
    let old_ones = model.revised_all(name, list);
    let fresh = model.fresh_exemptions(name);
    let all = model.exemptions(name);
    let n = choose|n: int| 0 <= n < all.len() && all[n] == x;
    if n < old_ones.len() {
        assert(old_ones[n] == x);
        let k = lemma_revised_all(b, store, modes, name, list, x);
        let entry = list[k];
        assert(is_kept(x, entry) || is_made(x) && !entry.suggest && x.version == entry.version);
        assert forall|i: int| #[trigger]
            criteria::criteria_of(m, x.criteria).has(i) implies exists|j: int|
            m.implies_index(j, i) && #[trigger] is_due(b, store, modes, name, x, k, j) by {
            lemma_due(graph, resolver, b, store, modes, name, x, k, i);
        }
    } else {
        assert(fresh[n - old_ones.len()] == x);
        let entries = b.required.get_spec(name)->0->0;
        let y = lemma_new(m, entries.listing(), x);
        assert(update::is_required(
            store,
            b.mapper,
            b.packages,
            b.requirements,
            modes,
            name,
            b.required.get_spec(name),
        ));
        entries.lemma_listing(y);
        let e = RequiredEntryView::FreshExemption { version: x.version };
        let o = DeltaEdgeOriginView::FreshExemption { version: x.version };
        let set = entries.listing()[y].1;
        assert(model.criteria_for(name, e) == set);
        assert forall|j: int| #[trigger] set.has(j) implies implications::is_named(m, j)
            && is_relied_on_for(b, store, modes, name, j, o) by {
            lemma_relied_for(graph, resolver, b, store, modes, name, e, o, j);
        }
        assert forall|i: int| #[trigger]
            criteria::criteria_of(m, x.criteria).has(i) implies exists|j: int|
            m.implies_index(j, i) && #[trigger] is_relied_on_for(
                b,
                store,
                modes,
                name,
                j,
                o,
            ) by {
            let j = lemma_written_for(m, set, i);
            assert(is_relied_on_for(b, store, modes, name, j, o));
        }
    }
}

proof fn lemma_due(
    graph: PackageGraph,
    resolver: CargoResolverVersion,
    b: UpdateBasis,
    store: Store,
    modes: UpdateModes,
    name: Seq<char>,
    x: ExemptedDependencyView,
    k: int,
    i: int,
) -> (j: int)
    requires
        b.holds(graph, resolver, store, modes),
        0 <= k < exemptions_before(store, name).len(),
        b.model(store, modes).revised(name, k, exemptions_before(store, name)[k]).contains(x),
        criteria::criteria_of(b.mapper, x.criteria).has(i),
    ensures
        b.mapper.implies_index(j, i),
        is_due(b, store, modes, name, x, k, j),
{
    let m = b.mapper;
    let model = b.model(store, modes);
    let entry = exemptions_before(store, name)[k];
    let original = criteria::criteria_of(m, entry.criteria);
    let useful = model.useful_criteria(name, k, entry);
    let needed = model.criteria_for(name, entry_of(k));
    let o = DeltaEdgeOriginView::Exemption { exemption_index: k as usize };
    keeping::lemma_stuck(graph, resolver, b, store, modes, name);
    CriteriaSet::lemma_empty();
    CriteriaSet::lemma_union(needed, original);
    CriteriaSet::lemma_union(original, original);
    CriteriaSet::lemma_minus(useful, original);
    assert forall|j: int| #[trigger] original.has(j) implies implications::is_named(m, j) by {
        implications::lemma_list_named(m, store.audits.criteria, entry.criteria, j);
    }
    assert forall|j: int| #[trigger] needed.has(j) implies implications::is_named(m, j)
        && is_relied_on_for(b, store, modes, name, j, o) by {
        lemma_relied_for(graph, resolver, b, store, modes, name, entry_of(k), o, j);
    }
    let rev = model.revised(name, k, entry);
    let n = choose|n: int| 0 <= n < rev.len() && rev[n] == x;
    let set = if !entry.suggest && !original.covers(useful) {
        if n == 0 {
            useful.minus(original)
        } else {
            original
        }
    } else {
        useful
    };
    assert(x.criteria == criteria::names_of(m, set));
    lemma_written_for(m, set, i)
}

/// Where exemptions are not pruned, or packages cannot be vetted, every exemption
/// from something stays, with its version, its notes and whether it is suggested to
/// replace it.
pub proof fn law_exemptions_stay(
    graph: PackageGraph,
    resolver: CargoResolverVersion,
    b: UpdateBasis,
    store: Store,
    modes: UpdateModes,
    u: StoreUpdates,
    name: Seq<char>,
    k: int,
    i: int,
)
    requires
        b.holds(graph, resolver, store, modes),
        b.model(store, modes).updates(u),
        0 <= k < exemptions_before(store, name).len(),
        criteria::criteria_of(b.mapper, exemptions_before(store, name)[k].criteria).has(i),
        !modes.at(name).prune_exemptions || keeping::is_stuck(b, store, modes, name),
    ensures
        exists|x: ExemptedDependencyView| #[trigger]
            sorted_map::views_at(u.exemptions, name).contains(x) && is_kept(
                x,
                exemptions_before(store, name)[k],
            ),
{
    let m = b.mapper;
    let model = b.model(store, modes);
    let list = exemptions_before(store, name);
    let entry = list[k];
    let original = criteria::criteria_of(m, entry.criteria);
    let useful = model.useful_criteria(name, k, entry);
    keeping::lemma_stuck(graph, resolver, b, store, modes, name);
    CriteriaSet::lemma_empty();
    CriteriaSet::lemma_union(model.criteria_for(name, entry_of(k)), original);
    CriteriaSet::lemma_union(original, original);
    assert(useful.has(i));
    let rev = model.revised(name, k, entry);
    let x = rev.last();
    assert(rev[rev.len() - 1] == x);
    assert(rev.contains(x));
    lemma_all_revised(b, store, modes, name, list, k, x);
    let old_ones = model.revised_all(name, list);
    let all = model.exemptions(name);
    let n = choose|n: int| 0 <= n < old_ones.len() && old_ones[n] == x;
    assert(all[n] == x);
    lemma_listed(b, store, modes, u, name, x);
    assert(is_kept(x, entry));
}

} // verus!
