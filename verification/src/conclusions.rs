//! What an analysis concludes.

use vstd::prelude::*;
use guppy::graph::cargo::CargoResolverVersion;
use guppy::graph::PackageGraph;
use crate::audit_graph;
use crate::audit_graph::ViolationConflictView;
use crate::conflicts;
use crate::criteria::CriteriaSet;
use crate::demands;
use crate::edges::{DeltaEdgeOrigin, SearchMode};
use crate::order;
use crate::records::Store;
use crate::requirements;
use crate::resolve;
use crate::resolve::{resolve, Conclusion, FailForVet, Findings, ResolveReport};
use crate::searches;
use crate::searches::Case;
use crate::sorted_map;
use crate::text;
use crate::version;

verus! {

/// An analysis of a workspace.
pub struct Analysis {
    pub graph: PackageGraph,
    pub resolver: CargoResolverVersion,
    pub store: Store,
    pub report: ResolveReport,
}

impl Analysis {
    /// Whether the report is that of the analysis.
    pub open spec fn is_done(self) -> bool {
        call_ensures(resolve, (&self.graph, self.resolver, &self.store), self.report)
    }

    /// Whether a position is that of a package that needs audits.
    pub open spec fn is_audited(self, p: int) -> bool {
        0 <= p < self.report.packages@.len() && self.report.packages@[p].third_party(
            self.store.config.policy,
        )
    }

    /// Whether a package needs audits, and entries for it contradict each other.
    pub open spec fn is_contradicted(self, p: int) -> bool {
        self.is_audited(p) && exists|c: ViolationConflictView| #[trigger]
            conflicts::is_contradiction(
                self.store,
                None,
                self.report.criteria_mapper,
                self.report.packages@[p].name@,
                c,
            )
    }

    /// Whether a package has to meet a criterion.
    pub open spec fn is_owed(self, p: int, i: int) -> bool {
        0 <= p < self.report.packages@.len() && requirements::workspace_requires(
            self.graph,
            self.resolver,
            self.store.config,
            self.report.criteria_mapper,
            self.report.packages@,
            p,
            i,
        )
    }

    /// The search for a criterion of a package.
    pub open spec fn case(self, p: int, i: int) -> Case {
        Case {
            store: self.store,
            extra: None,
            mapper: self.report.criteria_mapper,
            name: self.report.packages@[p].name@,
            criterion: i,
            mode: SearchMode::PreferExemptions,
        }
    }

    /// Whether a package that needs audits has to meet a criterion, and no entries
    /// that count lead from the root to its version.
    pub open spec fn is_unmet(self, p: int, i: int) -> bool {
        &&& self.is_audited(p)
        &&& self.is_owed(p, i)
        &&& !self.case(p, i).is_linked(None, Some(self.report.packages@[p].version@))
    }

    /// The proof that was found for a criterion of a package.
    pub open spec fn path(self, p: int, i: int) -> Seq<DeltaEdgeOrigin> {
        self.report.results@[p]->0.search_results@[i]->Ok_0@
    }

    /// Whether something that a package has to meet was shown with the help of an
    /// origin.
    pub open spec fn is_shown_with(self, p: int, wanted: spec_fn(DeltaEdgeOrigin) -> bool) -> bool {
        exists|i: int, k: int|
            {
                &&& self.is_owed(p, i)
                &&& self.report.results@[p]->0.search_results@[i] is Ok
                &&& 0 <= k < self.path(p, i).len()
                &&& wanted(#[trigger] self.path(p, i)[k])
            }
    }

    spec fn findings(self) -> Findings {
        let required = choose|required: Seq<CriteriaSet>|
            resolve::are_requirements(
                self.graph,
                self.resolver,
                self.store,
                self.report.criteria_mapper,
                self.report.packages@,
                required,
            ) && (#[trigger] self.report.findings(self.store, required)).wf()
                && self.report.findings(self.store, required).concludes(self.report.conclusion);
        self.report.findings(self.store, required)
    }

    proof fn lemma_findings(self)
        requires
            self.is_done(),
        ensures
            ({
                let f = self.findings();
                &&& self.report.wf()
                &&& f.wf()
                &&& f.concludes(self.report.conclusion)
                &&& f.store == self.store
                &&& f.mapper == self.report.criteria_mapper
                &&& f.packages == self.report.packages@
                &&& f.results == self.report.results@
                &&& forall|p: int, i: int|
                    0 <= p < f.packages.len() ==> (#[trigger] f.requirements[p].has(i)
                        <==> self.is_owed(p, i))
                &&& forall|p: int, i: int| #[trigger]
                    self.is_owed(p, i) ==> f.requirements[p].has(i) && 0 <= i
                        < f.mapper.names@.len()
            }),
    {
        assert(self.report.is_for(self.graph, self.resolver, self.store));
        let f = self.findings();
        assert forall|p: int, i: int| 0 <= p < f.packages.len() implies (
        #[trigger] f.requirements[p].has(i) <==> self.is_owed(p, i)) by {
            assert(resolve::is_requirement(
                self.graph,
                self.resolver,
                self.store,
                f.mapper,
                f.packages,
                p,
                f.requirements[p],
            ));
        }
        assert forall|p: int, i: int| #[trigger] self.is_owed(p, i) implies f.requirements[p].has(i)
            && 0 <= i < f.mapper.names@.len() by {
            assert(f.requirements[p].has(i) <==> self.is_owed(p, i));
            demands::law_workspace_asks_closed_criteria(
                self.graph,
                self.resolver,
                self.store.config,
                f.mapper,
                self.store.audits.criteria,
                f.packages,
                p,
                i,
            );
        }
    }

    proof fn lemma_contradicted(self, p: int)
        requires
            0 <= p < self.report.packages@.len(),
        ensures
            self.is_contradicted(p) <==> resolve::has_conflicts(
                self.store,
                self.report.criteria_mapper,
                self.report.packages@[p],
            ),
    {
        let m = self.report.criteria_mapper;
        let name = self.report.packages@[p].name@;
        let all = audit_graph::store_conflicts(self.store, m, name, None);
        if all.len() > 0 {
            assert(all.contains(all[0]));
            conflicts::law_conflicts_are_contradictions(self.store, None, m, name, all[0]);
            assert(conflicts::is_contradiction(self.store, None, m, name, all[0]));
        }
        if self.is_contradicted(p) {
            let c = choose|c: ViolationConflictView| #[trigger]
                conflicts::is_contradiction(self.store, None, m, name, c);
            conflicts::law_conflicts_are_contradictions(self.store, None, m, name, c);
            assert(all.contains(c));
        }
    }

    proof fn lemma_unmet(self, p: int, i: int)
        requires
            self.is_done(),
            0 <= p < self.report.packages@.len(),
            self.report.results@[p] is Some,
        ensures
            self.is_unmet(p, i) <==> self.report.results@[p]->0.fails(
                self.findings().requirements[p],
                i,
            ),
    {
        self.lemma_findings();
        let f = self.findings();
        assert(resolve::is_package_outcome(f.store, f.mapper, f.packages[p], f.results[p]));
        let result = f.results[p]->0;
        assert(f.requirements[p].has(i) <==> self.is_owed(p, i));
        if self.is_owed(p, i) {
            let r = result.search_results@[i];
            let x = self.case(p, i);
            assert(searches::is_found(x, f.packages[p].version, r));
            searches::law_proofs_are_found_for_chains(x, f.packages[p].version, r, None);
        }
    }

    proof fn lemma_fails(self, p: int)
        requires
            self.is_done(),
            0 <= p < self.report.packages@.len(),
            !self.is_contradicted(p),
        ensures
            (self.findings().fails())(p) <==> exists|i: int| self.is_unmet(p, i),
    {
        self.lemma_findings();
        law_results_are_found(self, p, 0);
        let f = self.findings();
        if exists|i: int| self.is_unmet(p, i) {
            let i = choose|i: int| self.is_unmet(p, i);
            self.lemma_unmet(p, i);
            assert(f.results[p]->0.fails(f.requirements[p], i));
        }
        if (f.fails())(p) {
            let i = choose|i: int| f.results[p]->0.fails(f.requirements[p], i);
            self.lemma_unmet(p, i);
            assert(self.is_unmet(p, i));
        }
    }

    proof fn lemma_failure_at(self, v: FailForVet, k: int, i: int)
        requires
            self.is_done(),
            self.report.conclusion == Conclusion::FailForVet(v),
            0 <= k < v.failures@.len(),
        ensures
            0 <= v.failures@[k].0 < self.report.packages@.len(),
            (self.findings().fails())(v.failures@[k].0 as int),
            v.failures@[k].1.criteria_failures.has(i) <==> self.is_unmet(v.failures@[k].0 as int, i),
    {
        self.lemma_findings();
        let f = self.findings();
        let l = resolve::positions(v.failures@);
        let p = v.failures@[k].0 as int;
        let keep = f.fails();
        assert(l[k] == p);
        assert(keep(l[k] as int));
        self.lemma_unmet(p, i);
        assert(f.results[p]->0.is_failure_set(
            f.requirements[p],
            v.failures@[k].1.criteria_failures,
        ));
        assert(v.failures@[k].1.criteria_failures.has(i) == f.results[p]->0.fails(
            f.requirements[p],
            i,
        ));
    }
}

/// Packages have results exactly if they need audits and nothing contradicts, and
/// these are what searches for each criterion find.
pub proof fn law_results_are_found(a: Analysis, p: int, i: int)
    requires
        a.is_done(),
        0 <= p < a.report.packages@.len(),
    ensures
        a.report.results@.len() == a.report.packages@.len(),
        a.report.results@[p] is Some <==> a.is_audited(p) && !a.is_contradicted(p),
        a.report.results@[p] matches Some(r) ==> r.search_results@.len()
            == a.report.criteria_mapper.names@.len() && (0 <= i < r.search_results@.len()
            ==> searches::is_found(
            a.case(p, i),
            a.report.packages@[p].version,
            r.search_results@[i],
        )),
{
    a.lemma_findings();
    a.lemma_contradicted(p);
    let f = a.findings();
    assert(resolve::is_package_outcome(f.store, f.mapper, f.packages[p], f.results[p]));
}

/// Contradictions come first: there are some exactly if the analysis says so, and it
/// lists exactly the packages that have some, in order, each with all of its own.
pub proof fn law_contradictions_are_reported(a: Analysis)
    requires
        a.is_done(),
    ensures
        a.report.conclusion is FailForViolationConflict <==> exists|p: int| a.is_contradicted(p),
        a.report.conclusion matches Conclusion::FailForViolationConflict(f) ==> {
            &&& forall|p: int| #[trigger]
                a.is_contradicted(p) <==> exists|k: int|
                    0 <= k < f.violations@.len() && (#[trigger] f.violations@[k]).0 == p
            &&& forall|k: int, c: ViolationConflictView|
                0 <= k < f.violations@.len() ==> (sorted_map::views(
                    (#[trigger] f.violations@[k]).1@,
                ).contains(c) <==> #[trigger] conflicts::is_contradiction(
                    a.store,
                    None,
                    a.report.criteria_mapper,
                    a.report.packages@[f.violations@[k].0 as int].name@,
                    c,
                ))
            &&& forall|k: int, j: int|
                0 <= k < j < f.violations@.len() ==> (#[trigger] f.violations@[k]).0 < (
                #[trigger] f.violations@[j]).0
        },
{
    a.lemma_findings();
    let f = a.findings();
    let keep = f.conflicts();
    assert forall|p: int| #[trigger] a.is_contradicted(p) implies 0 <= p < f.packages.len()
        && keep(p) by {
        a.lemma_contradicted(p);
    }
    assert forall|p: int| 0 <= p < f.packages.len() && #[trigger] keep(p) implies
        a.is_contradicted(p) by {
        a.lemma_contradicted(p);
    }
    if exists|p: int| a.is_contradicted(p) {
        let p = choose|p: int| a.is_contradicted(p);
        assert(keep(p));
        assert(f.some(keep));
    }
    if let Conclusion::FailForViolationConflict(v) = a.report.conclusion {
        let l = resolve::positions(v.violations@);
        let p = choose|p: int| 0 <= p < f.packages.len() && #[trigger] keep(p);
        assert(a.is_contradicted(p));
        assert forall|k: int| 0 <= k < v.violations@.len() implies l[k] == (
        #[trigger] v.violations@[k]).0 && keep(l[k] as int) by {}
        assert forall|p: int| #[trigger] a.is_contradicted(p) <==> exists|k: int|
            0 <= k < v.violations@.len() && (#[trigger] v.violations@[k]).0 == p by {
            if a.is_contradicted(p) {
                let k = choose|k: int| 0 <= k < l.len() && l[k] == p;
                assert(v.violations@[k].0 == p);
            }
            if exists|k: int| 0 <= k < v.violations@.len() && (#[trigger] v.violations@[k]).0 == p {
                let k = choose|k: int|
                    0 <= k < v.violations@.len() && (#[trigger] v.violations@[k]).0 == p;
                assert(keep(l[k] as int));
            }
        }
        assert forall|k: int, c: ViolationConflictView| 0 <= k < v.violations@.len() implies (
        sorted_map::views((#[trigger] v.violations@[k]).1@).contains(c)
            <==> #[trigger] conflicts::is_contradiction(
            a.store,
            None,
            a.report.criteria_mapper,
            a.report.packages@[v.violations@[k].0 as int].name@,
            c,
        )) by {
            conflicts::law_conflicts_are_contradictions(
                a.store,
                None,
                a.report.criteria_mapper,
                a.report.packages@[v.violations@[k].0 as int].name@,
                c,
            );
        }
        assert forall|k: int, j: int| 0 <= k < j < v.violations@.len() implies (
        #[trigger] v.violations@[k]).0 < (#[trigger] v.violations@[j]).0 by {
            assert(l[k] < l[j]);
        }
    }
}

/// Without contradictions, the analysis fails exactly if something is not met.
pub proof fn law_failures_are_reported(a: Analysis)
    requires
        a.is_done(),
        forall|p: int| !a.is_contradicted(p),
    ensures
        a.report.conclusion is FailForVet <==> exists|p: int, i: int| a.is_unmet(p, i),
{
    law_contradictions_are_reported(a);
    if exists|p: int, i: int| a.is_unmet(p, i) {
        let (p, i) = choose|p: int, i: int| a.is_unmet(p, i);
        lemma_some_failure(a, p);
    }
    if let Conclusion::FailForVet(v) = a.report.conclusion {
        let k = lemma_has_failure(a, v);
        a.lemma_failure_at(v, k, 0);
        a.lemma_fails(v.failures@[k].0 as int);
        let i = choose|i: int| a.is_unmet(v.failures@[k].0 as int, i);
        assert(a.is_unmet(v.failures@[k].0 as int, i));
    }
}

/// Whether there are criteria in a set.
pub open spec fn has_criteria(s: CriteriaSet) -> bool {
    exists|i: int| s.has(i)
}

/// Where the analysis fails, it lists exactly the packages that do not meet
/// something, each with all that it does not meet.
pub proof fn law_failures_are_listed(a: Analysis, v: FailForVet)
    requires
        a.is_done(),
        a.report.conclusion == Conclusion::FailForVet(v),
    ensures
        forall|p: int, i: int| #[trigger]
            a.is_unmet(p, i) <==> exists|k: int|
                0 <= k < v.failures@.len() && (#[trigger] v.failures@[k]).0 == p
                    && v.failures@[k].1.criteria_failures.has(i),
        forall|k: int|
            0 <= k < v.failures@.len() ==> has_criteria(
                (#[trigger] v.failures@[k]).1.criteria_failures,
            ),
{
    law_contradictions_are_reported(a);
    lemma_failures(a, v);
}

/// The packages that fail are listed by name, version and id, each once.
pub proof fn law_failures_are_ordered(a: Analysis, v: FailForVet, k: int, j: int)
    requires
        a.is_done(),
        a.report.conclusion == Conclusion::FailForVet(v),
        0 <= k < j < v.failures@.len(),
    ensures
        v.failures@[k].0 != v.failures@[j].0,
        ({
            let x = a.report.packages@[v.failures@[k].0 as int];
            let y = a.report.packages@[v.failures@[j].0 as int];
            order::lex_le(
                text::text_key(x.name@) + version::vet_version_key(x.version@) + text::text_key(
                    x.id@,
                ),
                text::text_key(y.name@) + version::vet_version_key(y.version@) + text::text_key(
                    y.id@,
                ),
            )
        }),
{
    a.lemma_findings();
    let f = a.findings();
    let l = resolve::positions(v.failures@);
    assert(resolve::lists_packages(f.packages, l, f.fails()));
    assert(l[k] == v.failures@[k].0);
    assert(l[j] == v.failures@[j].0);
    assert(l[k] != l[j]);
}

proof fn lemma_some_failure(a: Analysis, p: int)
    requires
        a.is_done(),
        forall|p: int| !a.is_contradicted(p),
        exists|i: int| a.is_unmet(p, i),
    ensures
        a.report.conclusion is FailForVet,
{
    a.lemma_findings();
    law_contradictions_are_reported(a);
    let f = a.findings();
    let keep = f.fails();
    a.lemma_fails(p);
    assert(keep(p));
    assert(f.some(keep));
}

proof fn lemma_has_failure(a: Analysis, v: FailForVet) -> (k: int)
    requires
        a.is_done(),
        a.report.conclusion == Conclusion::FailForVet(v),
    ensures
        0 <= k < v.failures@.len(),
{
    a.lemma_findings();
    let f = a.findings();
    let keep = f.fails();
    let p = choose|p: int| 0 <= p < f.packages.len() && #[trigger] keep(p);
    let l = resolve::positions(v.failures@);
    assert(resolve::lists_packages(f.packages, l, keep));
    assert(f.some(keep));
    choose|k: int| 0 <= k < l.len() && l[k] == p
}

proof fn lemma_failures(a: Analysis, v: FailForVet)
    requires
        a.is_done(),
        forall|p: int| !a.is_contradicted(p),
        a.report.conclusion == Conclusion::FailForVet(v),
    ensures
        forall|p: int, i: int| #[trigger]
            a.is_unmet(p, i) <==> exists|k: int|
                0 <= k < v.failures@.len() && (#[trigger] v.failures@[k]).0 == p
                    && v.failures@[k].1.criteria_failures.has(i),
        forall|k: int|
            0 <= k < v.failures@.len() ==> has_criteria(
                (#[trigger] v.failures@[k]).1.criteria_failures,
            ),
{
    assert forall|p: int, i: int| #[trigger] a.is_unmet(p, i) <==> exists|k: int|
        0 <= k < v.failures@.len() && (#[trigger] v.failures@[k]).0 == p
            && v.failures@[k].1.criteria_failures.has(i) by {
        if a.is_unmet(p, i) {
            let k = lemma_failure_of(a, v, p);
            a.lemma_failure_at(v, k, i);
        }
        if exists|k: int|
            0 <= k < v.failures@.len() && (#[trigger] v.failures@[k]).0 == p
                && v.failures@[k].1.criteria_failures.has(i) {
            let k = choose|k: int|
                0 <= k < v.failures@.len() && (#[trigger] v.failures@[k]).0 == p
                    && v.failures@[k].1.criteria_failures.has(i);
            a.lemma_failure_at(v, k, i);
        }
    }
    assert forall|k: int| 0 <= k < v.failures@.len() implies has_criteria(
        (#[trigger] v.failures@[k]).1.criteria_failures,
    ) by {
        let p = v.failures@[k].0 as int;
        a.lemma_failure_at(v, k, 0);
        a.lemma_fails(p);
        let i = choose|i: int| a.is_unmet(p, i);
        a.lemma_failure_at(v, k, i);
    }
}

proof fn lemma_failure_of(a: Analysis, v: FailForVet, p: int) -> (k: int)
    requires
        a.is_done(),
        forall|p: int| !a.is_contradicted(p),
        a.report.conclusion == Conclusion::FailForVet(v),
        exists|i: int| a.is_unmet(p, i),
    ensures
        0 <= k < v.failures@.len(),
        v.failures@[k].0 == p,
{
    a.lemma_findings();
    a.lemma_fails(p);
    let f = a.findings();
    let keep = f.fails();
    let l = resolve::positions(v.failures@);
    assert(resolve::lists_packages(f.packages, l, keep));
    assert(keep(p));
    let k = choose|k: int| 0 <= k < l.len() && l[k] == p;
    assert(l[k] == v.failures@[k].0);
    k
}

/// If the analysis succeeds, every package that needs audits stands on exactly one of
/// the three lists: with those that no exemption helped, with those that only
/// exemptions and unpublished entries helped, or with the others.
pub proof fn law_vetted_packages_are_sorted_out(a: Analysis, p: int)
    requires
        a.is_done(),
    ensures
        a.report.conclusion matches Conclusion::Success(s) ==> {
            let helped = a.is_shown_with(p, |o: DeltaEdgeOrigin| o is Exemption);
            let audited = a.is_shown_with(
                p,
                |o: DeltaEdgeOrigin| !(o is Exemption) && !(o is Unpublished),
            );
            &&& (exists|k: int| 0 <= k < s.vetted_fully@.len() && s.vetted_fully@[k] == p)
                <==> a.is_audited(p) && !helped
            &&& (exists|k: int|
                0 <= k < s.vetted_with_exemptions@.len() && s.vetted_with_exemptions@[k] == p)
                <==> a.is_audited(p) && helped && !audited
            &&& (exists|k: int| 0 <= k < s.vetted_partially@.len() && s.vetted_partially@[k] == p)
                <==> a.is_audited(p) && helped && audited
        },
{
    a.lemma_findings();
    law_contradictions_are_reported(a);
    let f = a.findings();
    if let Conclusion::Success(s) = a.report.conclusion {
        let is_exemption = |o: DeltaEdgeOrigin| o is Exemption;
        let is_audit = |o: DeltaEdgeOrigin| !(o is Exemption) && !(o is Unpublished);
        if 0 <= p < f.packages.len() {
            law_results_are_found(a, p, 0);
            assert(!a.is_contradicted(p));
            if f.results[p] is Some {
                let result = f.results[p]->0;
                let required = f.requirements[p];
                assert(result.needs_exemptions(required) == a.is_shown_with(p, is_exemption)) by {
                    if result.needs_exemptions(required) {
                        let i = choose|i: int| #[trigger]
                            result.proves(required, i) && resolve::has_exemption(
                                result.search_results@[i]->Ok_0@,
                            );
                        assert(f.requirements[p].has(i));
                        let path = result.search_results@[i]->Ok_0@;
                        let k = choose|k: int|
                            0 <= k < path.len() && (#[trigger] path[k]) is Exemption;
                        assert(is_exemption(a.path(p, i)[k]));
                    }
                    if a.is_shown_with(p, is_exemption) {
                        let (i, k) = choose|i: int, k: int|
                            {
                                &&& a.is_owed(p, i)
                                &&& a.report.results@[p]->0.search_results@[i] is Ok
                                &&& 0 <= k < a.path(p, i).len()
                                &&& is_exemption(#[trigger] a.path(p, i)[k])
                            };
                        assert(result.proves(required, i));
                        assert(result.search_results@[i]->Ok_0@[k] is Exemption);
                    }
                }
                assert(result.is_directly_exempted(required) == !a.is_shown_with(p, is_audit)) by {
                    if !result.is_directly_exempted(required) {
                        let i = choose|i: int|
                            #[trigger] result.proves(required, i) && !resolve::is_exempted(
                                result.search_results@[i]->Ok_0@,
                            );
                        assert(f.requirements[p].has(i));
                        let path = result.search_results@[i]->Ok_0@;
                        let k = choose|k: int|
                            0 <= k < path.len() && !((#[trigger] path[k]) is Exemption
                                || path[k] is Unpublished);
                        assert(is_audit(a.path(p, i)[k]));
                    }
                    if a.is_shown_with(p, is_audit) {
                        let (i, k) = choose|i: int, k: int|
                            {
                                &&& a.is_owed(p, i)
                                &&& a.report.results@[p]->0.search_results@[i] is Ok
                                &&& 0 <= k < a.path(p, i).len()
                                &&& is_audit(#[trigger] a.path(p, i)[k])
                            };
                        assert(result.proves(required, i));
                        let path = result.search_results@[i]->Ok_0@;
                        assert(!(path[k] is Exemption || path[k] is Unpublished));
                    }
                }
            }
            let full = f.full();
            let exempted = f.exempted();
            let partial = f.partial();
            assert(full(p) == (f.results[p] is Some && !a.is_shown_with(p, is_exemption)));
            assert(exempted(p) == (f.results[p] is Some && a.is_shown_with(p, is_exemption)
                && !a.is_shown_with(p, is_audit)));
            assert(partial(p) == (f.results[p] is Some && a.is_shown_with(p, is_exemption)
                && a.is_shown_with(p, is_audit)));
        }
    }
}

} // verus!
