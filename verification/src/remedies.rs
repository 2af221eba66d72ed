//! For which criteria an audit of a change is suggested.

use vstd::prelude::*;
use guppy::graph::cargo::CargoResolverVersion;
use guppy::graph::PackageGraph;
use crate::criteria;
use crate::criteria::CriteriaSet;
use crate::delta;
use crate::demands;
use crate::implications;
use crate::records::Store;
use crate::resolve;
use crate::resolve::{Conclusion, ResolveReport};
use crate::text;
use crate::version;
use crate::version::VetVersion;

verus! {

/// Whether an audit of a change makes up for a failed criterion of some package of
/// the name, wherever that package stands among the failures: the change starts at a
/// version that is reached from the root, and ends at one that is reached from the
/// package.
pub open spec fn is_remedied(
    report: ResolveReport,
    name: Seq<char>,
    from: Option<&VetVersion>,
    to: VetVersion,
    i: int,
) -> bool {
    exists|k: int| is_remedied_at(report, name, from, to, k, i)
}

/// Whether an audit of a change makes up for a criterion of one failure.
pub open spec fn is_remedied_at(
    report: ResolveReport,
    name: Seq<char>,
    from: Option<&VetVersion>,
    to: VetVersion,
    k: int,
    i: int,
) -> bool {
    &&& report.conclusion matches Conclusion::FailForVet(f)
    &&& 0 <= k < f.failures@.len()
    &&& f.failures@[k].1.criteria_failures.has(i)
    &&& {
        let p = f.failures@[k].0 as int;
        let found = report.results@[p]->0.search_results@[i];
        &&& report.packages@[p].name@ == name
        &&& report.results@[p] is Some
        &&& found is Err
        &&& exists|x: int|
            0 <= x < found->Err_0.reachable_from_root@.len() && version::node(
                #[trigger] found->Err_0.reachable_from_root@[x],
            ) == version::node_ref(from)
        &&& exists|x: int|
            0 <= x < found->Err_0.reachable_from_target@.len() && version::node(
                #[trigger] found->Err_0.reachable_from_target@[x],
            ) == Some(to@)
    }
}

proof fn lemma_remedied_at(
    report: ResolveReport,
    name: Seq<char>,
    from: Option<&VetVersion>,
    to: VetVersion,
    k: int,
    i: int,
)
    ensures
        report.heals(name, version::node_ref(from), to@, k, i) <==> is_remedied_at(
            report,
            name,
            from,
            to,
            k,
            i,
        ),
{
    if let Conclusion::FailForVet(f) = report.conclusion {
        let p = f.failures@[k].0 as int;
        if let Some(result) = report.results@[p] {
            if let Err(reached) = result.search_results@[i] {
                delta::lemma_listed(reached.reachable_from_root@, version::node_ref(from));
                delta::lemma_listed(reached.reachable_from_target@, Some(to@));
            }
        }
    }
}

proof fn lemma_remedies(
    report: ResolveReport,
    name: &str,
    from: Option<&VetVersion>,
    to: VetVersion,
    r: Vec<String>,
) -> (set: CriteriaSet)
    requires
        call_ensures(
            ResolveReport::compute_suggested_criteria,
            (&report, name, from, &to),
            r,
        ),
    ensures
        text::texts(r@) == criteria::names_of(report.criteria_mapper, set),
        forall|i: int| #[trigger] set.has(i) == is_remedied(report, name@, from, to, i),
{
    let set = choose|set: CriteriaSet|
        text::texts(r@) == #[trigger] criteria::names_of(report.criteria_mapper, set) && forall|
            i: int,
        |
            #![trigger set.has(i)]
            set.has(i) == exists|k: int|
                report.heals(name@, version::node_ref(from), to@, k, i);
    assert forall|i: int| #[trigger] set.has(i) == is_remedied(report, name@, from, to, i) by {
        if set.has(i) {
            let k = choose|k: int| report.heals(name@, version::node_ref(from), to@, k, i);
            lemma_remedied_at(report, name@, from, to, k, i);
        }
        if is_remedied(report, name@, from, to, i) {
            let k = choose|k: int| is_remedied_at(report, name@, from, to, k, i);
            lemma_remedied_at(report, name@, from, to, k, i);
            assert(report.heals(name@, version::node_ref(from), to@, k, i));
        }
    }
    set
}

/// The suggested names are those of the criteria that the audit makes up for, except
/// where another such criterion implies one.
pub proof fn law_suggested_criteria_are_remedied(
    report: ResolveReport,
    name: &str,
    from: Option<&VetVersion>,
    to: VetVersion,
    r: Vec<String>,
    n: Seq<char>,
)
    requires
        report.wf(),
        call_ensures(
            ResolveReport::compute_suggested_criteria,
            (&report, name, from, &to),
            r,
        ),
    ensures
        text::texts(r@).contains(n) <==> exists|i: int|
            {
                &&& #[trigger] is_remedied(report, name@, from, to, i)
                &&& n == (if i < report.criteria_mapper.names@.len() {
                    report.criteria_mapper.names@[i]@
                } else {
                    Seq::empty()
                })
                &&& forall|j: int| #[trigger]
                    is_remedied(report, name@, from, to, j) && report.criteria_mapper.implies_index(
                        j,
                        i,
                    ) ==> j == i
            },
{
    let m = report.criteria_mapper;
    let set = lemma_remedies(report, name, from, to, r);
    let names = criteria::names_of(m, set);
    let l = criteria::minimal(m, set);
    criteria::lemma_minimal(m, set);
    if names.contains(n) {
        let x = choose|x: int| 0 <= x < names.len() && names[x] == n;
        let i = l[x] as int;
        assert(set.has(i) && criteria::is_minimal(m, set, i));
        assert(is_remedied(report, name@, from, to, i));
        assert(names[x] == criteria::name_of(m, l[x]));
        assert forall|j: int| #[trigger]
            is_remedied(report, name@, from, to, j) && m.implies_index(j, i) implies j == i by {
            assert(set.has(j));
        }
    }
    if exists|i: int|
        {
            &&& #[trigger] is_remedied(report, name@, from, to, i)
            &&& n == (if i < m.names@.len() {
                m.names@[i]@
            } else {
                Seq::empty()
            })
            &&& forall|j: int| #[trigger]
                is_remedied(report, name@, from, to, j) && m.implies_index(j, i) ==> j == i
        } {
        let i = choose|i: int|
            {
                &&& #[trigger] is_remedied(report, name@, from, to, i)
                &&& n == (if i < m.names@.len() {
                    m.names@[i]@
                } else {
                    Seq::empty()
                })
                &&& forall|j: int| #[trigger]
                    is_remedied(report, name@, from, to, j) && m.implies_index(j, i) ==> j == i
            };
        assert(set.has(i));
        assert(criteria::is_minimal(m, set, i));
        let x = choose|x: int| 0 <= x < l.len() && l[x] == i;
        assert(names[x] == n);
    }
}

/// The suggested names cover every criterion that the audit makes up for, of whatever
/// failure of the name, unless a criterion that implies it lies in a cycle.
pub proof fn law_suggested_criteria_cover_failures(
    graph: PackageGraph,
    resolver: CargoResolverVersion,
    store: Store,
    report: ResolveReport,
    name: &str,
    from: Option<&VetVersion>,
    to: VetVersion,
    r: Vec<String>,
    k: int,
    i: int,
)
    requires
        report.is_for(graph, resolver, store),
        call_ensures(
            ResolveReport::compute_suggested_criteria,
            (&report, name, from, &to),
            r,
        ),
        is_remedied_at(report, name@, from, to, k, i),
        forall|j: int| #[trigger]
            is_remedied(report, name@, from, to, j) && report.criteria_mapper.implies_index(j, i)
                ==> implications::is_acyclic(report.criteria_mapper, j),
    ensures
        criteria::criteria_of(report.criteria_mapper, text::texts(r@)).has(i),
{
    let m = report.criteria_mapper;
    let set = lemma_remedies(report, name, from, to, r);
    assert forall|j: int| #[trigger] set.has(j) implies implications::is_named(m, j) by {
        assert(is_remedied(report, name@, from, to, j));
        let x = choose|x: int| is_remedied_at(report, name@, from, to, x, j);
        lemma_failed_named(graph, resolver, store, report, x, j);
    }
    assert(set.has(i));
    assert forall|j: int| #[trigger] set.has(j) && m.implies_index(j, i) implies
        implications::is_acyclic(m, j) by {
        assert(is_remedied(report, name@, from, to, j));
    }
    let j = implications::lemma_minimal_above(m, store.audits.criteria, set, i);
    implications::lemma_written(m, set, j, i);
}

/// The names of failed criteria stand for them.
proof fn lemma_failed_named(
    graph: PackageGraph,
    resolver: CargoResolverVersion,
    store: Store,
    report: ResolveReport,
    k: int,
    i: int,
)
    requires
        report.is_for(graph, resolver, store),
        report.conclusion matches Conclusion::FailForVet(f) && 0 <= k < f.failures@.len()
            && f.failures@[k].1.criteria_failures.has(i),
    ensures
        implications::is_named(report.criteria_mapper, i),
{
    let m = report.criteria_mapper;
    let f = report.conclusion->FailForVet_0;
    let p = f.failures@[k].0 as int;
    let required = choose|required: Seq<CriteriaSet>|
        resolve::are_requirements(graph, resolver, store, m, report.packages@, required) && (
        #[trigger] report.findings(store, required)).wf() && report.findings(
            store,
            required,
        ).concludes(report.conclusion);
    let findings = report.findings(store, required);
    assert(findings.results[p]->0.is_failure_set(required[p], f.failures@[k].1.criteria_failures));
    assert(findings.results[p]->0.fails(required[p], i));
    assert(resolve::positions(f.failures@)[k] == f.failures@[k].0);
    assert(resolve::is_requirement(graph, resolver, store, m, report.packages@, p, required[p]));
    demands::law_workspace_asks_closed_criteria(
        graph,
        resolver,
        store.config,
        m,
        store.audits.criteria,
        report.packages@,
        p,
        i,
    );
}

} // verus!
