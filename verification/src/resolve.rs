//! Which packages are vetted.

use vstd::prelude::*;
use guppy::graph::cargo::CargoResolverVersion;
use guppy::graph::PackageGraph;
use crate::audit_graph;
use crate::audit_graph::{AuditGraph, SearchFailure, ViolationConflict, ViolationConflictView};
use crate::criteria;
use crate::criteria::{CriteriaMapper, CriteriaSet};
use crate::delta;
use crate::delta::{nodes_contain, DiffRecommendation};
use crate::edges::{DeltaEdgeOrigin, SearchMode};
use crate::order;
use crate::order::{sort_positions, Keyed};
use crate::package_graph;
use crate::package_graph::read_packages;
use crate::packages::Package;
use crate::records::Store;
use crate::requirements;
use crate::requirements::resolve_requirements;
use crate::sorted_map;
use crate::suggest;
use crate::suggest::{
    finish_suggest, PackageSuggestion, RegistrySuggestion, Suggest, SuggestItem, SuggestItemView,
    TrustHint,
};
use crate::text;
use crate::text::{push_text_key, text_eq};
use crate::version;
use crate::version::{VetVersion, VetVersionView};

verus! {

/// What was found for a package: for each criterion, the path of audits that
/// proves it, or what can be reached where there is none.
#[derive(Debug)]
pub struct ResolveResult {
    pub search_results: Vec<Result<Vec<DeltaEdgeOrigin>, SearchFailure>>,
}

/// The criteria that a package has to meet and does not.
#[derive(Debug, Clone, Copy, PartialEq, Eq)]
pub struct AuditFailure {
    pub criteria_failures: CriteriaSet,
}

/// All packages are vetted. Packages are given by their positions.
#[derive(Debug)]
pub struct Success {
    /// Third-party packages that were vetted with exemptions only.
    pub vetted_with_exemptions: Vec<usize>,
    /// Third-party packages that were vetted with audits and exemptions.
    pub vetted_partially: Vec<usize>,
    /// Third-party packages that were vetted with audits only.
    pub vetted_fully: Vec<usize>,
}

/// Audits or exemptions for some packages are at odds with violations.
#[derive(Debug)]
pub struct FailForViolationConflict {
    pub violations: Vec<(usize, Vec<ViolationConflict>)>,
}

/// Some packages do not meet the criteria that they have to meet.
#[derive(Debug)]
pub struct FailForVet {
    /// The packages that are to blame and need to be fixed.
    pub failures: Vec<(usize, AuditFailure)>,
    pub suggest: Option<Suggest>,
}

/// The conclusion of an analysis.
#[derive(Debug)]
pub enum Conclusion {
    Success(Success),
    FailForViolationConflict(FailForViolationConflict),
    FailForVet(FailForVet),
}

/// The outcome of an analysis.
#[derive(Debug)]
pub struct ResolveReport {
    /// The criteria, and the order in which results are given for them.
    pub criteria_mapper: CriteriaMapper,
    /// The packages of the build.
    pub packages: Vec<Package>,
    /// What was found for each package. First-party packages and packages with
    /// violation conflicts have no result.
    pub results: Vec<Option<ResolveResult>>,
    /// The final conclusion of the analysis.
    pub conclusion: Conclusion,
}

/// The key by which packages are listed: name, version and id.
pub open spec fn package_key(package: Package) -> Seq<u64> {
    text::text_key(package.name@) + version::vet_version_key(package.version@) + text::text_key(
        package.id@,
    )
}

/// The conflicts between the entries for a package.
pub open spec fn package_conflicts(store: Store, m: CriteriaMapper, package: Package) -> Seq<
    ViolationConflictView,
> {
    audit_graph::store_conflicts(store, m, package.name@, None)
}

/// Whether a package has conflicts that matter.
pub open spec fn has_conflicts(store: Store, m: CriteriaMapper, package: Package) -> bool {
    package.third_party(store.config.policy) && package_conflicts(store, m, package).len() > 0
}

/// Whether a result holds what a search for each criterion finds.
pub open spec fn is_package_result(
    store: Store,
    m: CriteriaMapper,
    package: Package,
    r: ResolveResult,
) -> bool {
    &&& r.search_results@.len() == m.names@.len()
    &&& forall|i: int|
        0 <= i < m.names@.len() ==> audit_graph::is_search_result(
            audit_graph::store_edges(store, m, package.name@, None),
            i,
            package.version@,
            SearchMode::PreferExemptions,
            #[trigger] r.search_results@[i],
        )
}

/// Whether the outcome for a package is right: third-party packages without
/// conflicts have a result, and no other packages do.
pub open spec fn is_package_outcome(
    store: Store,
    m: CriteriaMapper,
    package: Package,
    r: Option<ResolveResult>,
) -> bool {
    match r {
        Some(result) => package.third_party(store.config.policy) && package_conflicts(
            store,
            m,
            package,
        ).len() == 0 && is_package_result(store, m, package, result),
        None => !package.third_party(store.config.policy) || package_conflicts(
            store,
            m,
            package,
        ).len() > 0,
    }
}

impl ResolveResult {
    /// Whether a criterion is required and not met.
    pub open spec fn fails(&self, required: CriteriaSet, i: int) -> bool {
        required.has(i) && i < self.search_results@.len() && self.search_results@[i] is Err
    }

    /// Whether a required criterion is not met.
    pub open spec fn is_failure(&self, required: CriteriaSet) -> bool {
        exists|i: int| self.fails(required, i)
    }

    /// Whether `set` holds the required criteria that are not met.
    pub open spec fn is_failure_set(&self, required: CriteriaSet, set: CriteriaSet) -> bool {
        forall|i: int| #[trigger] set.has(i) == self.fails(required, i)
    }

    /// The path for a criterion that is required and met.
    pub open spec fn proves(&self, required: CriteriaSet, i: int) -> bool {
        required.has(i) && i < self.search_results@.len() && self.search_results@[i] is Ok
    }

    /// Whether a required criterion is met with the help of an exemption.
    pub open spec fn needs_exemptions(&self, required: CriteriaSet) -> bool {
        exists|i: int| #[trigger]
            self.proves(required, i) && has_exemption(self.search_results@[i]->Ok_0@)
    }

    /// Whether every required criterion that is met is met without any audit.
    pub open spec fn is_directly_exempted(&self, required: CriteriaSet) -> bool {
        forall|i: int| #[trigger]
            self.proves(required, i) ==> is_exempted(self.search_results@[i]->Ok_0@)
    }
}

/// Whether a path uses an exemption.
pub open spec fn has_exemption(path: Seq<DeltaEdgeOrigin>) -> bool {
    exists|j: int| 0 <= j < path.len() && (#[trigger] path[j]) is Exemption
}

/// Whether a path uses exemptions and unpublished entries only.
pub open spec fn is_exempted(path: Seq<DeltaEdgeOrigin>) -> bool {
    forall|j: int|
        0 <= j < path.len() ==> (#[trigger] path[j]) is Exemption || path[j] is Unpublished
}

/// Whether a listing holds the positions below `n` that satisfy `keep`, in
/// ascending order.
pub open spec fn picks(listing: Seq<usize>, n: int, keep: spec_fn(int) -> bool) -> bool {
    &&& forall|i: int|
        0 <= i < listing.len() ==> (#[trigger] listing[i]) < n && keep(listing[i] as int)
    &&& forall|p: int| 0 <= p < n && #[trigger] keep(p) ==> exists|i: int|
        0 <= i < listing.len() && listing[i] == p
    &&& forall|i: int, j: int|
        0 <= i < j < listing.len() ==> (#[trigger] listing[i]) < (#[trigger] listing[j])
}

/// Whether a listing holds the positions of the packages that satisfy `keep`,
/// each once, ordered by name, version and id.
pub open spec fn lists_packages(
    packages: Seq<Package>,
    listing: Seq<usize>,
    keep: spec_fn(int) -> bool,
) -> bool {
    &&& forall|i: int|
        0 <= i < listing.len() ==> (#[trigger] listing[i]) < packages.len() && keep(
            listing[i] as int,
        )
    &&& forall|p: int| 0 <= p < packages.len() && #[trigger] keep(p) ==> exists|i: int|
        0 <= i < listing.len() && listing[i] == p
    &&& forall|i: int, j: int|
        0 <= i < j < listing.len() ==> (#[trigger] listing[i]) != (#[trigger] listing[j])
            && order::lex_le(
            package_key(packages[listing[i] as int]),
            package_key(packages[listing[j] as int]),
        )
}

/// The results of an analysis, without the conclusion.
pub struct Findings {
    pub store: Store,
    pub mapper: CriteriaMapper,
    pub packages: Seq<Package>,
    pub requirements: Seq<CriteriaSet>,
    pub results: Seq<Option<ResolveResult>>,
}

impl Findings {
    /// Whether a package has violation conflicts.
    pub open spec fn conflicts(self) -> spec_fn(int) -> bool {
        |p: int| has_conflicts(self.store, self.mapper, self.packages[p])
    }

    /// Whether a package does not meet its requirements.
    pub open spec fn fails(self) -> spec_fn(int) -> bool {
        |p: int| self.results[p] is Some && self.results[p]->0.is_failure(self.requirements[p])
    }

    /// Whether a package needs no exemption.
    pub open spec fn full(self) -> spec_fn(int) -> bool {
        |p: int|
            self.results[p] is Some && !self.results[p]->0.needs_exemptions(self.requirements[p])
    }

    /// Whether a package needs exemptions and no audits.
    pub open spec fn exempted(self) -> spec_fn(int) -> bool {
        |p: int|
            self.results[p] is Some && self.results[p]->0.needs_exemptions(self.requirements[p])
                && self.results[p]->0.is_directly_exempted(self.requirements[p])
    }

    /// Whether a package needs audits and exemptions.
    pub open spec fn partial(self) -> spec_fn(int) -> bool {
        |p: int|
            self.results[p] is Some && self.results[p]->0.needs_exemptions(self.requirements[p])
                && !self.results[p]->0.is_directly_exempted(self.requirements[p])
    }

    /// Whether some package satisfies `keep`.
    pub open spec fn some(self, keep: spec_fn(int) -> bool) -> bool {
        exists|p: int| 0 <= p < self.packages.len() && #[trigger] keep(p)
    }

    /// Whether a conclusion follows: violation conflicts come first, failures
    /// second, and without either all is vetted.
    pub open spec fn concludes(self, c: Conclusion) -> bool {
        match c {
            Conclusion::FailForViolationConflict(f) => {
                &&& self.some(self.conflicts())
                &&& picks(
                    positions(f.violations@),
                    self.packages.len() as int,
                    self.conflicts(),
                )
                &&& forall|i: int|
                    0 <= i < f.violations@.len() ==> sorted_map::views(
                        (#[trigger] f.violations@[i]).1@,
                    ) == package_conflicts(
                        self.store,
                        self.mapper,
                        self.packages[f.violations@[i].0 as int],
                    )
            },
            Conclusion::FailForVet(f) => {
                &&& !self.some(self.conflicts())
                &&& self.some(self.fails())
                &&& lists_packages(self.packages, positions(f.failures@), self.fails())
                &&& forall|i: int|
                    0 <= i < f.failures@.len() ==> self.results[(
                    #[trigger] f.failures@[i]).0 as int]->0.is_failure_set(
                        self.requirements[f.failures@[i].0 as int],
                        f.failures@[i].1.criteria_failures,
                    )
                &&& f.suggest is None
            },
            Conclusion::Success(s) => {
                &&& !self.some(self.conflicts())
                &&& !self.some(self.fails())
                &&& lists_packages(self.packages, s.vetted_fully@, self.full())
                &&& lists_packages(self.packages, s.vetted_with_exemptions@, self.exempted())
                &&& lists_packages(self.packages, s.vetted_partially@, self.partial())
            },
        }
    }

    /// The results are those of the searches.
    pub open spec fn wf(self) -> bool {
        &&& self.requirements.len() == self.packages.len()
        &&& self.results.len() == self.packages.len()
        &&& forall|p: int|
            0 <= p < self.packages.len() ==> is_package_outcome(
                self.store,
                self.mapper,
                self.packages[p],
                #[trigger] self.results[p],
            )
    }
}

/// Whether positions are those of packages.
pub open spec fn in_range(listing: Seq<usize>, packages: Seq<Package>) -> bool {
    forall|i: int| 0 <= i < listing.len() ==> (#[trigger] listing[i]) < packages.len()
}

/// The first parts of pairs.
pub open spec fn positions<T>(s: Seq<(usize, T)>) -> Seq<usize> {
    s.map_values(|x: (usize, T)| x.0)
}

fn key_of_package(package: &Package) -> (r: Vec<u64>)
    ensures
        r@ == package_key(*package),
{
    let mut key: Vec<u64> = Vec::new();
    push_text_key(package.name.as_str(), &mut key);
    package.version.push_key(&mut key);
    push_text_key(package.id.as_str(), &mut key);
    assert(key@ =~= package_key(*package));
    key
}

/// Sorts positions of packages by name, version and id.
fn sort_packages(
    packages: &Vec<Package>,
    listing: Vec<usize>,
    Ghost(keep): Ghost<spec_fn(int) -> bool>,
) -> (r: Vec<usize>)
    requires
        picks(listing@, packages@.len() as int, keep),
    ensures
        lists_packages(packages@, r@, keep),
        r@.len() == listing@.len(),
{
    let mut keys: Vec<Vec<u64>> = Vec::new();
    let mut i: usize = 0;
    while i < listing.len()
        invariant
            picks(listing@, packages@.len() as int, keep),
            i <= listing@.len(),
            keys@.len() == i,
            forall|x: int|
                0 <= x < i ==> (#[trigger] keys@[x])@ == package_key(packages@[listing@[x] as int]),
        decreases listing@.len() - i,
    {
        let position: usize = listing[i];
        keys.push(key_of_package(&packages[position]));
        i = i + 1;
    }
    let n: usize = keys.len();
    let ghost views = order::key_views(keys@);
    let sorted = sort_positions(keys);
    let mut r: Vec<usize> = Vec::new();
    i = 0;
    while i < n
        invariant
            n == listing@.len(),
            views.len() == n,
            order::is_stable_order(views, sorted@),
            i <= n,
            r@.len() == i,
            forall|x: int| 0 <= x < i ==> #[trigger] r@[x] == listing@[sorted@[x] as int],
        decreases n - i,
    {
        let k: usize = sorted[i];
        r.push(listing[k]);
        i = i + 1;
    }
    proof {
        assert forall|p: int| 0 <= p < packages@.len() && #[trigger] keep(p) implies exists|i: int|
            0 <= i < r@.len() && r@[i] == p by {
            let x = choose|x: int| 0 <= x < listing@.len() && listing@[x] == p;
            let y = order::lemma_order_has(views, sorted@, x);
            assert(r@[y] == p);
        }
        assert forall|i: int, j: int| 0 <= i < j < r@.len() implies (#[trigger] r@[i]) != (
        #[trigger] r@[j]) && order::lex_le(
            package_key(packages@[r@[i] as int]),
            package_key(packages@[r@[j] as int]),
        ) by {
            let a = sorted@[i] as int;
            let b = sorted@[j] as int;
            assert(a != b);
            assert(views[a] == package_key(packages@[listing@[a] as int]));
            assert(views[b] == package_key(packages@[listing@[b] as int]));
            if a < b {
                assert(listing@[a] < listing@[b]);
            } else {
                assert(listing@[b] < listing@[a]);
            }
        }
    }
    r
}

/// Searches a proof for each criterion.
fn search_package(graph: &AuditGraph, m: &CriteriaMapper, package: &Package, Ghost(s): Ghost<Seq<audit_graph::EdgeView>>) -> (r:
    ResolveResult)
    requires
        m.wf(),
        graph.wf(),
        graph.models(s),
    ensures
        r.search_results@.len() == m.names@.len(),
        forall|i: int|
            0 <= i < m.names@.len() ==> audit_graph::is_search_result(
                s,
                i,
                package.version@,
                SearchMode::PreferExemptions,
                #[trigger] r.search_results@[i],
            ),
{
    let mut search_results: Vec<Result<Vec<DeltaEdgeOrigin>, SearchFailure>> = Vec::new();
    let n: usize = m.len();
    let mut i: usize = 0;
    while i < n
        invariant
            n == m.names@.len(),
            graph.wf(),
            graph.models(s),
            i <= n,
            search_results@.len() == i,
            forall|x: int|
                0 <= x < i ==> audit_graph::is_search_result(
                    s,
                    x,
                    package.version@,
                    SearchMode::PreferExemptions,
                    #[trigger] search_results@[x],
                ),
        decreases n - i,
    {
        search_results.push(graph.search(i, &package.version, SearchMode::PreferExemptions));
        i = i + 1;
    }
    ResolveResult { search_results }
}

fn path_has_exemption(path: &Vec<DeltaEdgeOrigin>) -> (r: bool)
    ensures
        r == has_exemption(path@),
{
    let mut j: usize = 0;
    while j < path.len()
        invariant
            j <= path@.len(),
            forall|x: int| 0 <= x < j ==> !((#[trigger] path@[x]) is Exemption),
        decreases path@.len() - j,
    {
        if let DeltaEdgeOrigin::Exemption { exemption_index: _ } = &path[j] {
            assert(path@[j as int] is Exemption);
            return true;
        }
        j = j + 1;
    }
    false
}

fn path_is_exempted(path: &Vec<DeltaEdgeOrigin>) -> (r: bool)
    ensures
        r == is_exempted(path@),
{
    let mut j: usize = 0;
    while j < path.len()
        invariant
            j <= path@.len(),
            forall|x: int|
                0 <= x < j ==> (#[trigger] path@[x]) is Exemption || path@[x] is Unpublished,
        decreases path@.len() - j,
    {
        let exempted = match &path[j] {
            DeltaEdgeOrigin::Exemption { exemption_index: _ } => true,
            DeltaEdgeOrigin::Unpublished { unpublished_index: _ } => true,
            _ => false,
        };
        if !exempted {
            assert(!(path@[j as int] is Exemption || path@[j as int] is Unpublished));
            return false;
        }
        j = j + 1;
    }
    true
}

/// What the results for a package mean.
struct Verdict {
    failures: CriteriaSet,
    needed_exemptions: bool,
    directly_exempted: bool,
}

impl ResolveResult {
    /// Compares what was found with what is required.
    fn judge(&self, required: &CriteriaSet) -> (r: Verdict)
        ensures
            self.is_failure_set(*required, r.failures),
            r.needed_exemptions == self.needs_exemptions(*required),
            r.directly_exempted == self.is_directly_exempted(*required),
    {
        let mut failures = CriteriaSet::none();
        let mut needed_exemptions = false;
        let mut directly_exempted = true;
        let mut i: usize = 0;
        while i < self.search_results.len() && i < 64
            invariant
                i <= self.search_results@.len(),
                i <= 64,
                forall|x: int| #[trigger]
                    failures.has(x) == (x < i && self.fails(*required, x)),
                needed_exemptions == exists|x: int|
                    x < i && #[trigger] self.proves(*required, x) && has_exemption(
                        self.search_results@[x]->Ok_0@,
                    ),
                directly_exempted == forall|x: int|
                    x < i && #[trigger] self.proves(*required, x) ==> is_exempted(
                        self.search_results@[x]->Ok_0@,
                    ),
            decreases self.search_results@.len() - i,
        {
            if required.has_criteria(i) {
                match &self.search_results[i] {
                    Ok(path) => {
                        assert(self.proves(*required, i as int));
                        if path_has_exemption(path) {
                            needed_exemptions = true;
                        }
                        if !path_is_exempted(path) {
                            directly_exempted = false;
                        }
                    },
                    Err(_) => {
                        failures.set_criteria(i);
                    },
                }
            }
            i = i + 1;
        }
        Verdict { failures, needed_exemptions, directly_exempted }
    }
}

/// What is found for a package, or its conflicts.
fn resolve_package(store: &Store, m: &CriteriaMapper, package: &Package) -> (r: Result<
    Option<ResolveResult>,
    Vec<ViolationConflict>,
>)
    requires
        m.wf(),
    ensures
        match r {
            Ok(outcome) => is_package_outcome(*store, *m, *package, outcome) && !has_conflicts(
                *store,
                *m,
                *package,
            ),
            Err(list) => has_conflicts(*store, *m, *package) && sorted_map::views(list@)
                == package_conflicts(*store, *m, *package),
        },
{
    if !package.is_third_party(&store.config.policy) {
        return Ok(None);
    }
    match AuditGraph::build(store, m, package.name.as_str(), None) {
        Ok(graph) => Ok(
            Some(
                search_package(
                    &graph,
                    m,
                    package,
                    Ghost(audit_graph::store_edges(*store, *m, package.name@, None)),
                ),
            ),
        ),
        Err(conflicts) => Err(conflicts),
    }
}

/// Adds a position to a listing if it is to be kept.
proof fn lemma_pick(listing: Seq<usize>, p: usize, keep: spec_fn(int) -> bool)
    requires
        picks(listing, p as int, keep),
    ensures
        keep(p as int) ==> picks(listing.push(p), p + 1, keep),
        !keep(p as int) ==> picks(listing, p + 1, keep),
{
    let next = listing.push(p);
    assert forall|q: int| 0 <= q < p + 1 && #[trigger] keep(q) && keep(p as int) implies exists|
        i: int,
    | 0 <= i < next.len() && next[i] == q by {
        if q == p {
            assert(next[listing.len() as int] == q);
        } else {
            let i = choose|i: int| 0 <= i < listing.len() && listing[i] == q;
            assert(next[i] == q);
        }
    }
}

/// The positions of the packages, by how they were vetted.
struct Listings {
    failures: Vec<usize>,
    full: Vec<usize>,
    exempted: Vec<usize>,
    partial: Vec<usize>,
}

/// Sorts out how the packages were vetted.
fn list_outcomes(
    requirements: &Vec<CriteriaSet>,
    results: &Vec<Option<ResolveResult>>,
    Ghost(f): Ghost<Findings>,
) -> (r: Listings)
    requires
        f.requirements == requirements@,
        f.results == results@,
        requirements@.len() == results@.len(),
    ensures
        picks(r.failures@, results@.len() as int, f.fails()),
        picks(r.full@, results@.len() as int, f.full()),
        picks(r.exempted@, results@.len() as int, f.exempted()),
        picks(r.partial@, results@.len() as int, f.partial()),
{
    let mut r = Listings {
        failures: Vec::new(),
        full: Vec::new(),
        exempted: Vec::new(),
        partial: Vec::new(),
    };
    let mut p: usize = 0;
    while p < results.len()
        invariant
            f.requirements == requirements@,
            f.results == results@,
            requirements@.len() == results@.len(),
            p <= results@.len(),
            picks(r.failures@, p as int, f.fails()),
            picks(r.full@, p as int, f.full()),
            picks(r.exempted@, p as int, f.exempted()),
            picks(r.partial@, p as int, f.partial()),
        decreases results@.len() - p,
    {
        proof {
            lemma_pick(r.failures@, p, f.fails());
            lemma_pick(r.full@, p, f.full());
            lemma_pick(r.exempted@, p, f.exempted());
            lemma_pick(r.partial@, p, f.partial());
        }
        if let Some(result) = &results[p] {
            let verdict = result.judge(&requirements[p]);
            proof {
                let required = requirements@[p as int];
                if result.is_failure(required) {
                    let i = choose|i: int| result.fails(required, i);
                    assert(verdict.failures.has(i));
                }
                if exists|i: int| #[trigger] verdict.failures.has(i) {
                    let i = choose|i: int| #[trigger] verdict.failures.has(i);
                    assert(result.fails(required, i));
                }
            }
            if !verdict.failures.is_empty() {
                r.failures.push(p);
            }
            if !verdict.needed_exemptions {
                r.full.push(p);
            } else if verdict.directly_exempted {
                r.exempted.push(p);
            } else {
                r.partial.push(p);
            }
        }
        p = p + 1;
    }
    r
}

/// What each package fails for.
fn list_failures(
    requirements: &Vec<CriteriaSet>,
    results: &Vec<Option<ResolveResult>>,
    listing: &Vec<usize>,
    Ghost(f): Ghost<Findings>,
) -> (r: Vec<(usize, AuditFailure)>)
    requires
        f.requirements == requirements@,
        f.results == results@,
        f.packages.len() == results@.len(),
        requirements@.len() == results@.len(),
        lists_packages(f.packages, listing@, f.fails()),
    ensures
        positions(r@) == listing@,
        forall|i: int|
            0 <= i < r@.len() ==> results@[(#[trigger] r@[i]).0 as int]->0.is_failure_set(
                requirements@[r@[i].0 as int],
                r@[i].1.criteria_failures,
            ),
{
    let mut failures: Vec<(usize, AuditFailure)> = Vec::new();
    let mut i: usize = 0;
    while i < listing.len()
        invariant
            f.requirements == requirements@,
            f.results == results@,
            f.packages.len() == results@.len(),
            requirements@.len() == results@.len(),
            lists_packages(f.packages, listing@, f.fails()),
            i <= listing@.len(),
            failures@.len() == i,
            forall|x: int|
                0 <= x < i ==> (#[trigger] failures@[x]).0 == listing@[x]
                    && results@[failures@[x].0 as int]->0.is_failure_set(
                    requirements@[failures@[x].0 as int],
                    failures@[x].1.criteria_failures,
                ),
        decreases listing@.len() - i,
    {
        let p: usize = listing[i];
        assert((f.fails())(p as int));
        if let Some(result) = &results[p] {
            let verdict = result.judge(&requirements[p]);
            failures.push((p, AuditFailure { criteria_failures: verdict.failures }));
        }
        i = i + 1;
    }
    assert(positions(failures@) =~= listing@);
    failures
}

/// Searches proofs for all third-party packages, and concludes.
pub fn resolve_audits(
    packages: &Vec<Package>,
    store: &Store,
    m: &CriteriaMapper,
    requirements: &Vec<CriteriaSet>,
) -> (r: (Vec<Option<ResolveResult>>, Conclusion))
    requires
        m.wf(),
        requirements@.len() == packages@.len(),
    ensures
        ({
            let f = Findings {
                store: *store,
                mapper: *m,
                packages: packages@,
                requirements: requirements@,
                results: r.0@,
            };
            f.wf() && f.concludes(r.1)
        }),
{
    let ghost conflicts = |p: int| has_conflicts(*store, *m, packages@[p]);
    let mut results: Vec<Option<ResolveResult>> = Vec::new();
    let mut violations: Vec<(usize, Vec<ViolationConflict>)> = Vec::new();
    let mut p: usize = 0;
    while p < packages.len()
        invariant
            m.wf(),
            p <= packages@.len(),
            results@.len() == p,
            conflicts == (|p: int| has_conflicts(*store, *m, packages@[p])),
            picks(positions(violations@), p as int, conflicts),
            forall|x: int|
                0 <= x < p ==> is_package_outcome(
                    *store,
                    *m,
                    packages@[x],
                    #[trigger] results@[x],
                ),
            forall|i: int|
                0 <= i < violations@.len() ==> sorted_map::views((#[trigger] violations@[i]).1@)
                    == package_conflicts(*store, *m, packages@[violations@[i].0 as int]),
        decreases packages@.len() - p,
    {
        proof {
            lemma_pick(positions(violations@), p, conflicts);
        }
        match resolve_package(store, m, &packages[p]) {
            Ok(outcome) => {
                results.push(outcome);
            },
            Err(list) => {
                let ghost before = violations@;
                violations.push((p, list));
                assert(positions(violations@) =~= positions(before).push(p));
                results.push(None);
            },
        }
        p = p + 1;
    }
    let ghost f = Findings {
        store: *store,
        mapper: *m,
        packages: packages@,
        requirements: requirements@,
        results: results@,
    };
    assert(conflicts == f.conflicts());
    if violations.len() > 0 {
        proof {
            let q = positions(violations@)[0];
            assert((f.conflicts())(q as int));
        }
        return (
            results,
            Conclusion::FailForViolationConflict(FailForViolationConflict { violations }),
        );
    }
    let listings = list_outcomes(requirements, &results, Ghost(f));
    let failing = sort_packages(packages, listings.failures, Ghost(f.fails()));
    if failing.len() > 0 {
        assert((f.fails())(failing@[0] as int));
        let failures = list_failures(requirements, &results, &failing, Ghost(f));
        return (results, Conclusion::FailForVet(FailForVet { failures, suggest: None }));
    }
    let success = Success {
        vetted_with_exemptions: sort_packages(packages, listings.exempted, Ghost(f.exempted())),
        vetted_partially: sort_packages(packages, listings.partial, Ghost(f.partial())),
        vetted_fully: sort_packages(packages, listings.full, Ghost(f.full())),
    };
    (results, Conclusion::Success(success))
}

impl ResolveReport {
    /// The results of the report, for given requirements.
    pub open spec fn findings(&self, store: Store, requirements: Seq<CriteriaSet>) -> Findings {
        Findings {
            store,
            mapper: self.criteria_mapper,
            packages: self.packages@,
            requirements,
            results: self.results@,
        }
    }

    /// Whether the positions in the report are those of packages, and what fails
    /// has a result that says why.
    pub open spec fn wf(&self) -> bool {
        &&& self.criteria_mapper.wf()
        &&& self.results@.len() == self.packages@.len()
        &&& match self.conclusion {
            Conclusion::Success(s) => in_range(s.vetted_fully@, self.packages@) && in_range(
                s.vetted_partially@,
                self.packages@,
            ) && in_range(s.vetted_with_exemptions@, self.packages@),
            Conclusion::FailForViolationConflict(f) => in_range(
                positions(f.violations@),
                self.packages@,
            ),
            Conclusion::FailForVet(f) => in_range(positions(f.failures@), self.packages@)
                && forall|k: int|
                0 <= k < f.failures@.len() ==> self.explains(#[trigger] f.failures@[k]),
        }
    }

    /// Whether a failure has a result that says why.
    pub open spec fn explains(&self, failure: (usize, AuditFailure)) -> bool {
        &&& self.results@[failure.0 as int] is Some
        &&& forall|i: int| #[trigger]
            failure.1.criteria_failures.has(i) ==> i
                < self.results@[failure.0 as int]->0.search_results@.len()
                && self.results@[failure.0 as int]->0.search_results@[i] is Err
    }

    /// Whether the packages are not all vetted.
    pub open spec fn spec_has_errors(&self) -> bool {
        !(self.conclusion is Success)
    }

    /// Whether the packages are not all vetted.
    pub fn has_errors(&self) -> (r: bool)
        ensures
            r == self.spec_has_errors(),
    {
        match &self.conclusion {
            Conclusion::Success(_) => false,
            _ => true,
        }
    }

    /// Whether there is something to warn about, which is never so.
    pub fn _has_warnings(&self) -> (r: bool)
        ensures
            r == false,
    {
        false
    }
}

/// Whether a set holds what the workspace asks of a package.
pub open spec fn is_requirement(
    graph: PackageGraph,
    resolver: CargoResolverVersion,
    store: Store,
    m: CriteriaMapper,
    packages: Seq<Package>,
    p: int,
    set: CriteriaSet,
) -> bool {
    forall|i: int| #[trigger]
        set.has(i) == requirements::workspace_requires(
            graph,
            resolver,
            store.config,
            m,
            packages,
            p,
            i,
        )
}

/// Whether sets hold what is required of packages.
pub open spec fn are_requirements(
    graph: PackageGraph,
    resolver: CargoResolverVersion,
    store: Store,
    m: CriteriaMapper,
    packages: Seq<Package>,
    required: Seq<CriteriaSet>,
) -> bool {
    &&& required.len() == packages.len()
    &&& forall|p: int|
        0 <= p < required.len() ==> is_requirement(
            graph,
            resolver,
            store,
            m,
            packages,
            p,
            #[trigger] required[p],
        )
}

impl ResolveReport {
    /// Whether the report is what the analysis of a workspace comes to: it has the
    /// criteria and the packages, and concludes from the searches for what is
    /// required.
    pub open spec fn is_for(
        &self,
        graph: PackageGraph,
        resolver: CargoResolverVersion,
        store: Store,
    ) -> bool {
        &&& self.wf()
        &&& criteria::models_criteria(self.criteria_mapper, store.audits.criteria)
        &&& package_graph::describes(self.packages@, graph)
        &&& exists|required: Seq<CriteriaSet>|
            are_requirements(
                graph,
                resolver,
                store,
                self.criteria_mapper,
                self.packages@,
                required,
            ) && (#[trigger] self.findings(store, required)).wf() && self.findings(
                store,
                required,
            ).concludes(self.conclusion)
    }
}

/// Checks the dependencies of a workspace against the store: what each package
/// has to meet, and whether it does.
pub fn resolve(
    package_graph: &PackageGraph,
    resolver_version: CargoResolverVersion,
    store: &Store,
) -> (r: ResolveReport)
    requires
        store.audits.criteria.entries().len() + 2 <= criteria::MAX_CRITERIA,
    ensures
        r.is_for(*package_graph, resolver_version, *store),
{
    let criteria_mapper = CriteriaMapper::new(&store.audits.criteria);
    let packages = read_packages(package_graph);
    let required = resolve_requirements(
        package_graph,
        &packages,
        &store.config,
        &criteria_mapper,
        resolver_version,
    );
    let (results, conclusion) = resolve_audits(&packages, store, &criteria_mapper, &required);
    let r = ResolveReport { criteria_mapper, packages, results, conclusion };
    assert(r.findings(*store, required@).wf());
    proof {
        r.lemma_wf(*store, required@);
    }
    r
}

impl ResolveReport {
    /// A report of an analysis is well-formed.
    proof fn lemma_wf(&self, store: Store, requirements: Seq<CriteriaSet>)
        requires
            self.criteria_mapper.wf(),
            self.findings(store, requirements).wf(),
            self.findings(store, requirements).concludes(self.conclusion),
        ensures
            self.wf(),
    {
        let f = self.findings(store, requirements);
        if let Conclusion::FailForVet(fail) = self.conclusion {
            assert forall|k: int| 0 <= k < fail.failures@.len() implies self.explains(
                #[trigger] fail.failures@[k],
            ) by {
                let p = positions(fail.failures@)[k];
                assert(p == fail.failures@[k].0);
                assert((f.fails())(p as int));
                assert(f.results[p as int]->0.is_failure_set(
                    requirements[p as int],
                    fail.failures@[k].1.criteria_failures,
                ));
            }
        }
    }

    /// Whether an audit of a change would connect a failed package to the root
    /// for a criterion.
    pub open spec fn heals(
        &self,
        package_name: Seq<char>,
        from: Option<VetVersionView>,
        to: VetVersionView,
        k: int,
        i: int,
    ) -> bool {
        self.conclusion matches Conclusion::FailForVet(f) && {
            let (p, failure) = f.failures@[k];
            &&& 0 <= k < f.failures@.len()
            &&& self.packages@[p as int].name@ == package_name
            &&& failure.criteria_failures.has(i)
            &&& self.results@[p as int] matches Some(result) && (result.search_results@[i] matches Err(
                reached,
            ) && delta::nodes(reached.reachable_from_target@).contains(Some(to)) && delta::nodes(
                reached.reachable_from_root@,
            ).contains(from))
        }
    }

    /// Given a package name and a change to be certified, the criteria for which
    /// that audit would have a healing impact on the audit graph.
    ///
    /// This is more reliable than looking for a matching suggestion, as it also
    /// selects criteria for audits that are not suggested.
    pub fn compute_suggested_criteria(
        &self,
        package_name: &str,
        from: Option<&VetVersion>,
        to: &VetVersion,
    ) -> (r: Vec<String>)
        requires
            self.wf(),
        ensures
            exists|set: CriteriaSet|
                text::texts(r@) == #[trigger] criteria::names_of(self.criteria_mapper, set)
                    && forall|i: int|
                    #![trigger set.has(i)]
                    set.has(i) == exists|k: int|
                        self.heals(package_name@, version::node_ref(from), to@, k, i),
    {
        let mut criteria = CriteriaSet::none();
        let ghost wanted_from = version::node_ref(from);
        let from: Option<VetVersion> = match from {
            Some(v) => Some(v.clone()),
            None => None,
        };
        let target: Option<VetVersion> = Some(to.clone());
        if let Conclusion::FailForVet(fail) = &self.conclusion {
            let mut k: usize = 0;
            while k < fail.failures.len()
                invariant
                    self.wf(),
                    self.conclusion == Conclusion::FailForVet(*fail),
                    version::node(from) == wanted_from,
                    version::node(target) == Some(to@),
                    k <= fail.failures@.len(),
                    forall|i: int|
                        #![trigger criteria.has(i)]
                        criteria.has(i) == exists|x: int|
                            0 <= x < k && self.heals(package_name@, wanted_from, to@, x, i),
                decreases fail.failures@.len() - k,
            {
                let (p, failure) = (fail.failures[k].0, fail.failures[k].1);
                assert(positions(fail.failures@)[k as int] == p);
                assert(self.explains(fail.failures@[k as int]));
                let ghost before = criteria;
                if text_eq(self.packages[p].name.as_str(), package_name) {
                    if let Some(result) = &self.results[p] {
                        let healed = healed_criteria(
                            result,
                            &failure.criteria_failures,
                            &from,
                            &target,
                        );
                        criteria.unioned_with(&healed);
                        proof {
                            assert forall|i: int| #[trigger] healed.has(i) == self.heals(
                                package_name@,
                                wanted_from,
                                to@,
                                k as int,
                                i,
                            ) by {}
                        }
                    }
                }
                proof {
                    assert forall|i: int| #![trigger criteria.has(i)] criteria.has(i) == exists|
                        x: int,
                    | 0 <= x < k + 1 && self.heals(package_name@, wanted_from, to@, x, i) by {
                        assert(before.has(i) == exists|x: int|
                            0 <= x < k && self.heals(package_name@, wanted_from, to@, x, i));
                        if exists|x: int|
                            0 <= x < k + 1 && self.heals(package_name@, wanted_from, to@, x, i) {
                            let x = choose|x: int|
                                0 <= x < k + 1 && self.heals(
                                    package_name@,
                                    wanted_from,
                                    to@,
                                    x,
                                    i,
                                );
                            if x < k {
                                assert(self.heals(package_name@, wanted_from, to@, x, i));
                            }
                        }
                    }
                }
                k = k + 1;
            }
        }
        self.criteria_mapper.criteria_names(&criteria)
    }
}

/// The criteria of a failed package that a change would heal.
fn healed_criteria(
    result: &ResolveResult,
    failures: &CriteriaSet,
    from: &Option<VetVersion>,
    to: &Option<VetVersion>,
) -> (r: CriteriaSet)
    requires
        forall|i: int| #[trigger] failures.has(i) ==> i < result.search_results@.len(),
    ensures
        forall|i: int| #[trigger]
            r.has(i) == (failures.has(i) && (result.search_results@[i] matches Err(reached)
                && delta::nodes(reached.reachable_from_target@).contains(version::node(*to))
                && delta::nodes(reached.reachable_from_root@).contains(version::node(*from)))),
{
    let mut r = CriteriaSet::none();
    let mut i: usize = 0;
    while i < 64
        invariant
            i <= 64,
            forall|i: int| #[trigger] failures.has(i) ==> i < result.search_results@.len(),
            forall|x: int| #[trigger]
                r.has(x) == (x < i && failures.has(x) && (result.search_results@[x] matches Err(
                    reached,
                ) && delta::nodes(reached.reachable_from_target@).contains(version::node(*to))
                    && delta::nodes(reached.reachable_from_root@).contains(version::node(*from)))),
        decreases 64 - i,
    {
        if failures.has_criteria(i) {
            assert(failures.has(i as int));
            if let Err(reached) = &result.search_results[i] {
                if nodes_contain(&reached.reachable_from_target, to) && nodes_contain(
                    &reached.reachable_from_root,
                    from,
                ) {
                    r.set_criteria(i);
                }
            }
        }
        i = i + 1;
    }
    r
}

/// Whether references to failures are those of some criteria.
pub open spec fn are_references(
    result: ResolveResult,
    indices: Seq<usize>,
    failures: Seq<&SearchFailure>,
) -> bool {
    &&& failures.len() == indices.len()
    &&& forall|k: int|
        0 <= k < indices.len() ==> result.search_results@[indices[k] as int] == Err::<
            Vec<DeltaEdgeOrigin>,
            SearchFailure,
        >(*(#[trigger] failures[k]))
}

impl ResolveReport {
    /// What could be reached for each criterion that a package fails for.
    pub fn search_failures(&self, k: usize) -> (r: Vec<&SearchFailure>)
        requires
            self.wf(),
            self.conclusion matches Conclusion::FailForVet(f) && k < f.failures@.len(),
        ensures
            self.conclusion matches Conclusion::FailForVet(f) && are_references(
                self.results@[f.failures@[k as int].0 as int]->0,
                criteria::indices(f.failures@[k as int].1.criteria_failures),
                r@,
            ),
    {
        let mut r: Vec<&SearchFailure> = Vec::new();
        if let Conclusion::FailForVet(fail) = &self.conclusion {
            let (p, failure) = (fail.failures[k].0, fail.failures[k].1);
            assert(positions(fail.failures@)[k as int] == p);
            assert(self.explains(fail.failures@[k as int]));
            if let Some(result) = &self.results[p] {
                let indices = failure.criteria_failures.indices();
                proof {
                    criteria::lemma_indices_below(failure.criteria_failures, 64);
                }
                let mut j: usize = 0;
                while j < indices.len()
                    invariant
                        indices@ == criteria::indices(failure.criteria_failures),
                        forall|i: usize| #[trigger]
                            criteria::indices(failure.criteria_failures).contains(i) == (i < 64
                                && failure.criteria_failures.has(i as int)),
                        forall|i: int| #[trigger]
                            failure.criteria_failures.has(i) ==> i < result.search_results@.len()
                                && result.search_results@[i] is Err,
                        j <= indices@.len(),
                        r@.len() == j,
                        forall|x: int|
                            0 <= x < j ==> result.search_results@[indices@[x] as int] == Err::<
                                Vec<DeltaEdgeOrigin>,
                                SearchFailure,
                            >(*(#[trigger] r@[x])),
                    decreases indices@.len() - j,
                {
                    let i: usize = indices[j];
                    assert(criteria::indices(failure.criteria_failures).contains(i));
                    if let Err(reached) = &result.search_results[i] {
                        r.push(reached);
                    }
                    j = j + 1;
                }
            }
        }
        r
    }

    /// The suggestion for a package that fails: its criteria are those that the
    /// package fails for.
    pub fn suggestion_for(
        &self,
        k: usize,
        suggested_diff: DiffRecommendation,
        extra_diff: Option<DiffRecommendation>,
        publisher_login: Option<String>,
        trust_hint: Option<TrustHint>,
        is_sole_publisher: bool,
        registry_suggestion: Vec<RegistrySuggestion>,
    ) -> (r: PackageSuggestion)
        requires
            self.conclusion matches Conclusion::FailForVet(f) && k < f.failures@.len(),
        ensures
            self.conclusion matches Conclusion::FailForVet(f) && r.package
                == f.failures@[k as int].0 && r.suggested_criteria
                == f.failures@[k as int].1.criteria_failures,
            r.suggested_diff == suggested_diff,
            r.extra_diff == extra_diff,
            r.publisher_login == publisher_login,
            r.trust_hint == trust_hint,
            r.is_sole_publisher == is_sole_publisher,
            r.registry_suggestion == registry_suggestion,
    {
        let (package, suggested_criteria) = match &self.conclusion {
            Conclusion::FailForVet(fail) => {
                (fail.failures[k].0, fail.failures[k].1.criteria_failures)
            },
            _ => (0, CriteriaSet::none()),
        };
        PackageSuggestion {
            package,
            suggested_criteria,
            suggested_diff,
            extra_diff,
            publisher_login,
            trust_hint,
            is_sole_publisher,
            registry_suggestion,
        }
    }

    /// The items of all suggestions.
    pub open spec fn suggest_items(packages: Seq<Package>, found: Seq<PackageSuggestion>) -> Seq<
        SuggestItemView,
    >
        decreases found.len(),
    {
        if found.len() == 0 {
            Seq::empty()
        } else {
            ResolveReport::suggest_items(packages, found.drop_last()) + found.last().items(packages)
        }
    }

    /// Puts together what is suggested for the failed packages. There is nothing
    /// to suggest unless packages failed to be vetted.
    pub fn compute_suggest(&self, found: Vec<PackageSuggestion>, warnings: Vec<String>) -> (r: Option<
        Suggest,
    >)
        requires
            self.wf(),
            ({
                let items = ResolveReport::suggest_items(self.packages@, found@);
                &&& suggest::items_ok(self.packages@, items)
                &&& forall|order: Seq<usize>| #[trigger]
                    order::is_stable_order(
                        suggest::item_keys(self.packages@, items),
                        order,
                    ) ==> suggest::total(
                        suggest::merged(self.packages@, suggest::pick_items(items, order)),
                    ) <= u64::MAX
            }),
        ensures
            match r {
                Some(s) => self.conclusion is FailForVet && suggest::is_suggest(
                    self.packages@,
                    self.criteria_mapper,
                    ResolveReport::suggest_items(self.packages@, found@),
                    s,
                ) && s.warnings == warnings,
                None => !(self.conclusion is FailForVet),
            },
    {
        match &self.conclusion {
            Conclusion::FailForVet(_) => {},
            _ => {
                return None;
            },
        }
        let ghost all = found@;
        let n: usize = found.len();
        let mut rest = found;
        let mut items: Vec<SuggestItem> = Vec::new();
        let mut k: usize = 0;
        assert(sorted_map::views(items@) =~= ResolveReport::suggest_items(
            self.packages@,
            all.take(0),
        ));
        assert(rest@ =~= all.skip(0));
        while k < n
            invariant
                n == all.len(),
                k <= n,
                rest@ == all.skip(k as int),
                sorted_map::views(items@) == ResolveReport::suggest_items(
                    self.packages@,
                    all.take(k as int),
                ),
            decreases n - k,
        {
            let one = rest.remove(0);
            proof {
                assert(one == all[k as int]);
                assert(all.skip(k as int).remove(0) =~= all.skip(k + 1));
                assert(all.take(k + 1).drop_last() =~= all.take(k as int));
            }
            let mut more = one.into_items(&self.packages);
            let ghost a = items@;
            let ghost b = more@;
            items.append(&mut more);
            assert(sorted_map::views(items@) =~= sorted_map::views(a) + sorted_map::views(b));
            k = k + 1;
        }
        assert(all.take(k as int) =~= all);
        Some(finish_suggest(&self.packages, &self.criteria_mapper, &items, warnings))
    }
}

} // verus!
