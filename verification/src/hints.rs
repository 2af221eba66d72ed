//! What is said about a suggested audit.

use vstd::prelude::*;
use crate::audit_graph;
use crate::audit_graph::{SearchFailure, ViolationConflictView};
use crate::conflicts;
use crate::criteria;
use crate::criteria::{CriteriaMapper, CriteriaSet};
use crate::delta::DiffRecommendation;
use crate::edges::{DeltaEdgeOrigin, SearchMode};
use crate::order;
use crate::packages::Package;
use crate::records::{AuditsFile, CratesSourceId, Store, TrustEntry};
use crate::retain;
use crate::searches;
use crate::searches::Case;
use crate::sorted_map;
use crate::sorted_map::SortedMap;
use crate::suggest;
use crate::suggest::{
    asks_registry, find_import_target, find_publisher, find_trust_source, list_publishers,
    list_trusted_by, notable_parents, rank_registry, registry_failures, RegistrySuggestion,
    RegistrySuggestionView, Release, ReleaseView, TrustSource,
};
use crate::text;
use crate::version;
use crate::version::VetVersion;

verus! {

/// Whether a decision for some package trusts a source.
pub open spec fn is_trusting(map: SortedMap<Vec<TrustEntry>>, source: CratesSourceId) -> bool {
    exists|k: int, j: int|
        0 <= k < map.entries().len() && 0 <= j < map.entries()[k].1@.len() && (
        #[trigger] map.entries()[k].1@[j]).source@ == source@
}

/// Whether an import trusts a source.
pub open spec fn is_trusting_import(store: Store, f: int, source: CratesSourceId) -> bool {
    0 <= f < conflicts::imports_of(store).audits.entries().len() && is_trusting(
        conflicts::imports_of(store).audits.entries()[f].1.trusted,
        source,
    )
}

/// Whether anyone trusts a source: the project itself or an import.
pub open spec fn is_trusted(store: Store, source: CratesSourceId) -> bool {
    is_trusting(store.audits.trusted, source) || exists|f: int| is_trusting_import(store, f, source)
}

proof fn lemma_trusting(map: SortedMap<Vec<TrustEntry>>, source: CratesSourceId)
    ensures
        suggest::map_trusts(map, source@) <==> is_trusting(map, source),
{
    if suggest::map_trusts(map, source@) {
        let k = choose|k: int|
            0 <= k < map.entries().len() && suggest::trusts(
                (#[trigger] map.entries()[k]).1@,
                source@,
            );
        let list = map.entries()[k].1@;
        let j = choose|j: int| 0 <= j < list.len() && (#[trigger] list[j]).source@ == source@;
        assert(map.entries()[k].1@[j].source@ == source@);
    }
    if is_trusting(map, source) {
        let (k, j) = choose|k: int, j: int|
            0 <= k < map.entries().len() && 0 <= j < map.entries()[k].1@.len() && (
            #[trigger] map.entries()[k].1@[j]).source@ == source@;
        let list = map.entries()[k].1@;
        assert(list[j].source@ == source@);
        assert(suggest::trusts(map.entries()[k].1@, source@));
    }
}

proof fn lemma_imports(store: Store, source: CratesSourceId, n: Seq<char>)
    ensures
        suggest::trusting_imports(store, source@).contains(n) <==> exists|f: int| #[trigger]
            is_trusting_import(store, f, source) && conflicts::imports_of(
                store,
            ).audits.entries()[f].0@ == n,
{
    let imports = store.live().audits;
    let keys = imports.keys();
    let flags = Seq::new(
        keys.len(),
        |k: int| suggest::map_trusts(imports.entries()[k].1.trusted, source@),
    );
    let r = suggest::trusting_imports(store, source@);
    if r.contains(n) {
        let f = retain::lemma_kept_member(keys, flags, n);
        lemma_trusting(imports.entries()[f].1.trusted, source);
        assert(is_trusting_import(store, f, source));
    }
    if exists|f: int| #[trigger]
        is_trusting_import(store, f, source) && conflicts::imports_of(store).audits.entries()[f].0@
            == n {
        let f = choose|f: int| #[trigger]
            is_trusting_import(store, f, source) && conflicts::imports_of(
                store,
            ).audits.entries()[f].0@ == n;
        lemma_trusting(imports.entries()[f].1.trusted, source);
        let k = retain::lemma_kept_has(keys, flags, f);
        assert(r[k] == n);
    }
}

/// Who trusts a source is this project alone, if it does, and otherwise every import
/// that does and no other. Nobody is listed exactly if nobody trusts it.
pub proof fn law_trust_is_listed(store: Store, source: CratesSourceId, r: Vec<String>, n: Seq<char>)
    requires
        call_ensures(list_trusted_by, (&store, &source), r),
    ensures
        r@.len() > 0 <==> is_trusted(store, source),
        is_trusting(store.audits.trusted, source) ==> r@.len() == 1 && r@[0]@ == "this project"@,
        !is_trusting(store.audits.trusted, source) && (forall|f: int| #[trigger]
            is_trusting_import(store, f, source) ==> conflicts::imports_of(
                store,
            ).audits.entries()[f].0@ != "this project"@) ==> ((exists|k: int|
            0 <= k < r@.len() && (#[trigger] r@[k])@ == n) <==> exists|f: int| #[trigger]
            is_trusting_import(store, f, source) && conflicts::imports_of(
                store,
            ).audits.entries()[f].0@ == n),
{
    let t = text::texts(r@);
    let imports = suggest::trusting_imports(store, source@);
    assert(t.len() == r@.len());
    assert forall|k: int| 0 <= k < r@.len() implies t[k] == (#[trigger] r@[k])@ by {}
    lemma_trusting(store.audits.trusted, source);
    lemma_imports(store, source, n);
    lemma_imports(store, source, suggest::this_project());
    if imports.len() > 0 {
        assert(imports.contains(imports[0]));
        lemma_imports(store, source, imports[0]);
    }
    if exists|f: int| is_trusting_import(store, f, source) {
        let f = choose|f: int| is_trusting_import(store, f, source);
        lemma_imports(store, source, conflicts::imports_of(store).audits.entries()[f].0@);
    }
    if exists|k: int| 0 <= k < r@.len() && (#[trigger] r@[k])@ == n {
        let k = choose|k: int| 0 <= k < r@.len() && (#[trigger] r@[k])@ == n;
        assert(t[k] == n);
        assert(t.contains(n));
    }
    if t.contains(n) {
        let k = choose|k: int| 0 <= k < t.len() && t[k] == n;
        assert(r@[k]@ == n);
    }
}

proof fn lemma_trusted(store: Store, source: CratesSourceId)
    ensures
        suggest::trusted_by(store, source@).len() > 0 <==> is_trusted(store, source),
{
    let imports = suggest::trusting_imports(store, source@);
    lemma_trusting(store.audits.trusted, source);
    lemma_imports(store, source, suggest::this_project());
    if imports.len() > 0 {
        assert(imports.contains(imports[0]));
        lemma_imports(store, source, imports[0]);
    }
    if exists|f: int| is_trusting_import(store, f, source) {
        let f = choose|f: int| is_trusting_import(store, f, source);
        lemma_imports(store, source, conflicts::imports_of(store).audits.entries()[f].0@);
    }
}

proof fn lemma_last_trusted(store: Store, releases: Seq<CratesSourceId>)
    ensures
        match suggest::last_trusted(store, suggest::sources(releases)) {
            Some(s) => exists|j: int|
                {
                    &&& 0 <= j < releases.len()
                    &&& (#[trigger] releases[j])@ == s
                    &&& is_trusted(store, releases[j])
                    &&& forall|k: int|
                        j < k < releases.len() ==> !is_trusted(store, #[trigger] releases[k])
                },
            None => forall|k: int|
                0 <= k < releases.len() ==> !is_trusted(store, #[trigger] releases[k]),
        },
    decreases releases.len(),
{
    if releases.len() > 0 {
        let t = releases.drop_last();
        let n = releases.len() - 1;
        assert(suggest::sources(releases).last() == releases[n]@);
        assert(suggest::sources(releases).drop_last() =~= suggest::sources(t));
        lemma_trusted(store, releases[n]);
        if is_trusted(store, releases[n]) {
            assert(releases[n]@ == suggest::sources(releases).last());
        } else {
            lemma_last_trusted(store, t);
            match suggest::last_trusted(store, suggest::sources(t)) {
                Some(s) => {
                    let j = choose|j: int|
                        {
                            &&& 0 <= j < t.len()
                            &&& (#[trigger] t[j])@ == s
                            &&& is_trusted(store, t[j])
                            &&& forall|k: int|
                                j < k < t.len() ==> !is_trusted(store, #[trigger] t[k])
                        };
                    assert(releases[j] == t[j]);
                    assert forall|k: int| j < k < releases.len() implies !is_trusted(
                        store,
                        #[trigger] releases[k],
                    ) by {
                        if k < n {
                            assert(releases[k] == t[k]);
                        }
                    }
                },
                None => {
                    assert forall|k: int| 0 <= k < releases.len() implies !is_trusted(
                        store,
                        #[trigger] releases[k],
                    ) by {
                        if k < n {
                            assert(releases[k] == t[k]);
                        }
                    }
                },
            }
        }
    }
}

/// The publisher of the version in question is hinted at if anyone trusts them.
/// Otherwise, unless the project trusts someone for the package, the publisher of the
/// latest release whose publisher anyone trusts is hinted at.
pub proof fn law_trusted_publishers_are_hinted_at(
    store: Store,
    package: &str,
    publisher: Option<&CratesSourceId>,
    releases: &Vec<CratesSourceId>,
    r: Option<TrustSource>,
)
    requires
        call_ensures(find_trust_source, (&store, package, publisher, releases), r),
    ensures
        ({
            let exact = publisher is Some && is_trusted(store, *publisher->0);
            &&& exact ==> r is Some && r->0.exact_version && r->0.source@ == publisher->0@
            &&& !exact && store.audits.trusted.get_spec(package@) is Some ==> r is None
            &&& !exact && store.audits.trusted.get_spec(package@) is None ==> match r {
                Some(t) => !t.exact_version && exists|j: int|
                    {
                        &&& 0 <= j < releases@.len()
                        &&& (#[trigger] releases@[j])@ == t.source@
                        &&& is_trusted(store, releases@[j])
                        &&& forall|k: int|
                            j < k < releases@.len() ==> !is_trusted(store, #[trigger] releases@[k])
                    },
                None => forall|k: int|
                    0 <= k < releases@.len() ==> !is_trusted(store, #[trigger] releases@[k]),
            }
        }),
{
    if publisher is Some {
        lemma_trusted(store, *publisher->0);
    }
    lemma_last_trusted(store, releases@);
}

proof fn lemma_publisher(releases: Seq<ReleaseView>, v: version::VersionView)
    ensures
        suggest::publisher_of(releases, v) matches Some(s) ==> exists|j: int|
            0 <= j < releases.len() && (#[trigger] releases[j]).version == v && releases[j].source
                == Some(s) && forall|k: int| 0 <= k < j ==> (#[trigger] releases[k]).version != v,
        suggest::publisher_of(releases, v) is None ==> forall|j: int|
            0 <= j < releases.len() && (#[trigger] releases[j]).version == v && (forall|k: int|
                0 <= k < j ==> (#[trigger] releases[k]).version != v) ==> releases[j].source is None,
    decreases releases.len(),
{
    if releases.len() > 0 && releases[0].version != v {
        let t = releases.drop_first();
        lemma_publisher(t, v);
        match suggest::publisher_of(t, v) {
            Some(s) => {
                let j = choose|j: int|
                    0 <= j < t.len() && (#[trigger] t[j]).version == v && t[j].source == Some(s)
                        && forall|k: int| 0 <= k < j ==> (#[trigger] t[k]).version != v;
                assert(releases[j + 1] == t[j]);
                assert forall|k: int| 0 <= k < j + 1 implies (#[trigger] releases[k]).version
                    != v by {
                    if k > 0 {
                        assert(releases[k] == t[k - 1]);
                    }
                }
            },
            None => {
                assert forall|j: int|
                    0 <= j < releases.len() && (#[trigger] releases[j]).version == v && (forall|
                        k: int,
                    | 0 <= k < j ==> (#[trigger] releases[k]).version != v) implies
                    releases[j].source is None by {
                    assert(t[j - 1] == releases[j]);
                    assert forall|k: int| 0 <= k < j - 1 implies (#[trigger] t[k]).version != v by {
                        assert(releases[k + 1] == t[k]);
                    }
                }
            },
        }
    }
}

/// Who published a version is what its first release says. Nobody published a Git
/// revision.
pub proof fn law_first_release_names_publisher(
    releases: &Vec<Release>,
    version: VetVersion,
    r: Option<&CratesSourceId>,
    j: int,
)
    requires
        call_ensures(find_publisher, (releases, &version), r),
    ensures
        version@.git_rev is Some ==> r is None,
        version@.git_rev is None && 0 <= j < releases@.len() && releases@[j]@.version
            == version@.semver && (forall|k: int|
            0 <= k < j ==> (#[trigger] releases@[k])@.version != version@.semver) ==> (match r {
            Some(s) => Some(s@),
            None => None,
        }) == releases@[j]@.source,
        version@.git_rev is None && (forall|k: int|
            0 <= k < releases@.len() ==> (#[trigger] releases@[k])@.version != version@.semver)
            ==> r is None,
{
    let s = sorted_map::views(releases@);
    let v = version@.semver;
    assert forall|k: int| 0 <= k < s.len() implies s[k] == (#[trigger] releases@[k])@ by {}
    lemma_publisher(s, v);
    if version@.git_rev is None {
        if r is Some {
            let x = choose|x: int|
                0 <= x < s.len() && (#[trigger] s[x]).version == v && s[x].source == Some(r->0@)
                    && forall|k: int| 0 <= k < x ==> (#[trigger] s[k]).version != v;
            assert(releases@[x]@.version == v);
            if 0 <= j < releases@.len() && releases@[j]@.version == v && (forall|k: int|
                0 <= k < j ==> (#[trigger] releases@[k])@.version != v) {
                if x < j {
                    assert(releases@[x]@.version != v);
                }
                if j < x {
                    assert(s[j].version != v);
                }
            }
        } else if 0 <= j < releases@.len() && releases@[j]@.version == v && (forall|k: int|
            0 <= k < j ==> (#[trigger] releases@[k])@.version != v) {
            assert forall|k: int| 0 <= k < j implies (#[trigger] s[k]).version != v by {
                assert(releases@[k]@.version != v);
            }
            assert(s[j].source is None);
        }
    }
}

/// Known publishers are listed in the order of the releases, one for each release
/// with a known publisher.
pub proof fn law_known_publishers_are_listed(releases: &Vec<Release>, r: Vec<CratesSourceId>)
    requires
        call_ensures(list_publishers, (releases,), r),
    ensures
        exists|at: Seq<int>|
            {
                &&& #[trigger] at.len() == r@.len()
                &&& forall|k: int|
                    0 <= k < at.len() ==> 0 <= #[trigger] at[k] < releases@.len()
                        && releases@[at[k]]@.source == Some(r@[k]@)
                &&& forall|k: int, j: int|
                    0 <= k < j < at.len() ==> #[trigger] at[k] < #[trigger] at[j]
                &&& forall|x: int|
                    0 <= x < releases@.len() && (#[trigger] releases@[x])@.source is Some
                        ==> at.contains(x)
            },
{
    let s = sorted_map::views(releases@);
    let at = lemma_known(s);
    let l = suggest::sources(r@);
    assert(at.len() == r@.len());
    assert forall|k: int| 0 <= k < at.len() implies 0 <= #[trigger] at[k] < releases@.len()
        && releases@[at[k]]@.source == Some(r@[k]@) by {
        assert(s[at[k]] == releases@[at[k]]@);
        assert(l[k] == r@[k]@);
    }
    assert forall|x: int|
        0 <= x < releases@.len() && (#[trigger] releases@[x])@.source is Some implies at.contains(
        x,
    ) by {
        assert(s[x].source is Some);
    }
}

proof fn lemma_known(s: Seq<ReleaseView>) -> (at: Seq<int>)
    ensures
        at.len() == suggest::known_sources(s).len(),
        forall|k: int|
            0 <= k < at.len() ==> 0 <= #[trigger] at[k] < s.len() && s[at[k]].source == Some(
                suggest::known_sources(s)[k],
            ),
        forall|k: int, j: int| 0 <= k < j < at.len() ==> #[trigger] at[k] < #[trigger] at[j],
        forall|x: int| 0 <= x < s.len() && (#[trigger] s[x]).source is Some ==> at.contains(x),
    decreases s.len(),
{
    if s.len() == 0 {
        Seq::empty()
    } else {
        let t = s.drop_last();
        let n = s.len() - 1;
        let rest = lemma_known(t);
        let at = if s.last().source is Some {
            rest.push(n)
        } else {
            rest
        };
        assert forall|k: int| 0 <= k < at.len() implies 0 <= #[trigger] at[k] < s.len()
            && s[at[k]].source == Some(suggest::known_sources(s)[k]) by {
            if k < rest.len() {
                assert(at[k] == rest[k]);
                assert(s[at[k]] == t[rest[k]]);
            }
        }
        assert forall|k: int, j: int| 0 <= k < j < at.len() implies #[trigger] at[k]
            < #[trigger] at[j] by {
            assert(at[k] == rest[k]);
            if j < rest.len() {
                assert(at[j] == rest[j]);
            }
        }
        assert forall|x: int| 0 <= x < s.len() && (#[trigger] s[x]).source is Some implies
            at.contains(x) by {
            if x < n {
                assert(t[x] == s[x]);
                let k = choose|k: int| 0 <= k < rest.len() && rest[k] == x;
                assert(at[k] == x);
            } else {
                assert(at[rest.len() as int] == x);
            }
        }
        at
    }
}

/// The notable parents of a package are those that depend on it.
pub proof fn law_parents_depend(packages: &Vec<Package>, p: usize, r: Vec<String>, n: Seq<char>)
    requires
        call_ensures(notable_parents, (packages, p), r),
    ensures
        text::texts(r@).contains(n) <==> exists|q: int, k: int|
            0 <= q < packages@.len() && packages@[q].name@ == n && 0 <= k
                < packages@[q].links@.len() && (#[trigger] packages@[q].links@[k]).to == p,
{
    let names = packages@.map_values(|q: Package| q.name@);
    let flags = Seq::new(packages@.len(), |q: int| suggest::depends_on(packages@[q], p as int));
    if text::texts(r@).contains(n) {
        let q = retain::lemma_kept_member(names, flags, n);
        let k = choose|k: int|
            0 <= k < packages@[q].links@.len() && (#[trigger] packages@[q].links@[k]).to == p;
        assert(packages@[q].links@[k].to == p);
    }
    if exists|q: int, k: int|
        0 <= q < packages@.len() && packages@[q].name@ == n && 0 <= k < packages@[q].links@.len()
            && (#[trigger] packages@[q].links@[k]).to == p {
        let (q, k) = choose|q: int, k: int|
            0 <= q < packages@.len() && packages@[q].name@ == n && 0 <= k
                < packages@[q].links@.len() && (#[trigger] packages@[q].links@[k]).to == p;
        assert(suggest::depends_on(packages@[q], p as int));
        let x = retain::lemma_kept_has(names, flags, q);
        assert(text::texts(r@)[x] == n);
    }
}

/// Imports are looked for unless a Git revision is to be audited. They are to vet the
/// version that an extra change starts from, if there is one, and otherwise the
/// version of the package.
pub proof fn law_imports_are_to_vet_a_version(
    version: VetVersion,
    suggested: DiffRecommendation,
    extra: Option<DiffRecommendation>,
    r: Option<VetVersion>,
)
    requires
        call_ensures(find_import_target, (&version, &suggested, &extra), r),
    ensures
        r is None <==> suggested.to@.git_rev is Some,
        r is Some && extra is Some && extra->0.from is Some ==> r->0@ == extra->0.from->0@,
        r is Some && (extra is None || extra->0.from is None) ==> r->0@ == version@,
{
}

/// The registry is asked only on a network, for people, and unless that is switched
/// off; and then it is.
pub proof fn law_registry_is_asked(switched_off: bool, human: bool, network: bool, r: bool)
    requires
        call_ensures(asks_registry, (switched_off, human, network), r),
    ensures
        r ==> network,
        r ==> human,
        r ==> !switched_off,
        network && human && !switched_off ==> r,
{
}

/// Imports are suggested that leave fewer lines to audit than the suggested audit
/// has, those that leave the fewest first.
pub proof fn law_better_imports_are_suggested(
    found: &Vec<RegistrySuggestion>,
    suggested: DiffRecommendation,
    r: Vec<RegistrySuggestion>,
    x: RegistrySuggestionView,
)
    requires
        call_ensures(rank_registry, (found, &suggested), r),
        suggested.diffstat.wf(),
        forall|i: int| 0 <= i < found@.len() ==> (#[trigger] found@[i]).diff.diffstat.wf(),
    ensures
        sorted_map::views(r@).contains(x) <==> sorted_map::views(found@).contains(x)
            && x.diff.diffstat.insertions + x.diff.diffstat.deletions
            < suggested.diffstat.insertions + suggested.diffstat.deletions,
        forall|i: int, j: int|
            0 <= i < j < r@.len() ==> (#[trigger] r@[i]).diff.diffstat.insertions
                + r@[i].diff.diffstat.deletions <= (#[trigger] r@[j]).diff.diffstat.insertions
                + r@[j].diff.diffstat.deletions,
{
    let l = sorted_map::views(found@);
    let limit = suggested.diffstat.lines();
    let flags = Seq::new(l.len(), |j: int| l[j].diff.diffstat.lines() < limit);
    let below = suggest::below(l, limit);
    let keys = suggest::line_keys(below);
    let order = choose|order: Seq<usize>| #[trigger]
        order::is_stable_order(keys, order) && sorted_map::views(r@) == suggest::pick_items(
            below,
            order,
        );
    let v = sorted_map::views(r@);
    assert(v.len() == r@.len() && v.len() == order.len());
    assert(r@.len() == r.len());
    assert(keys.len() <= usize::MAX);
    if v.contains(x) {
        let n = choose|n: int| 0 <= n < v.len() && v[n] == x;
        assert(below[order[n] as int] == x);
        assert(below.contains(x));
        let j = retain::lemma_kept_member(l, flags, x);
        assert(l[j] == x);
    }
    if l.contains(x) && x.diff.diffstat.lines() < limit {
        let j = choose|j: int| 0 <= j < l.len() && l[j] == x;
        let k = retain::lemma_kept_has(l, flags, j);
        let n = order::lemma_order_has(keys, order, k);
        assert(v[n] == x);
    }
    assert forall|i: int| 0 <= i < r@.len() implies (#[trigger] r@[i])@ == below[order[i] as int]
        && r@[i].diff.diffstat.wf() && keys[order[i] as int] == seq![
        r@[i].diff.diffstat.lines() as u64,
    ] by {
        assert(v[i] == r@[i]@);
        assert(order[i] < below.len());
        assert(below.contains(below[order[i] as int]));
        let j = retain::lemma_kept_member(l, flags, below[order[i] as int]);
        assert(l[j] == found@[j]@);
    }
    assert forall|i: int, j: int| 0 <= i < j < r@.len() implies (
    #[trigger] r@[i]).diff.diffstat.lines() <= (#[trigger] r@[j]).diff.diffstat.lines() by {
        assert(order[i] as int != order[j] as int);
        let a = keys[order[i] as int];
        let b = keys[order[j] as int];
        assert(order::lex_le(a, b));
        assert(a[0] == r@[i].diff.diffstat.lines() as u64);
        assert(b[0] == r@[j].diff.diffstat.lines() as u64);
    }
}

/// The search for a criterion of a package, with the audits of another project.
pub open spec fn with_audits(
    store: Store,
    m: CriteriaMapper,
    name: Seq<char>,
    audits: AuditsFile,
    i: int,
) -> Case {
    Case {
        store,
        extra: Some(audits),
        mapper: m,
        name,
        criterion: i,
        mode: SearchMode::PreferExemptions,
    }
}

/// Whether a failure is that of the search for one of some criteria.
pub open spec fn is_failure_for(
    store: Store,
    m: CriteriaMapper,
    name: Seq<char>,
    audits: AuditsFile,
    target: VetVersion,
    i: int,
    failure: SearchFailure,
) -> bool {
    searches::is_found(
        with_audits(store, m, name, audits, i),
        target,
        Err::<Vec<DeltaEdgeOrigin>, SearchFailure>(failure),
    )
}

proof fn lemma_failures(
    store: Store,
    m: CriteriaMapper,
    name: Seq<char>,
    audits: AuditsFile,
    target: VetVersion,
    indices: Seq<usize>,
    failures: Seq<SearchFailure>,
)
    requires
        m.wf(),
        suggest::are_failures(
            audit_graph::store_edges(store, m, name, Some(audits)),
            target@,
            indices,
            failures,
        ),
    ensures
        forall|i: usize| #[trigger]
            indices.contains(i) ==> with_audits(store, m, name, audits, i as int).is_linked(
                None,
                Some(target@),
            ) || is_failed(store, m, name, audits, target, i as int, failures),
        forall|k: int|
            0 <= k < failures.len() ==> is_due_to(
                store,
                m,
                name,
                audits,
                target,
                indices,
                #[trigger] failures[k],
            ),
    decreases indices.len(),
{
    if indices.len() > 0 {
        let t = indices.drop_last();
        let n = indices.len() - 1;
        let last = indices.last();
        let x = with_audits(store, m, name, audits, last as int);
        searches::lemma_root_linked(x, target@);
        let linked = x.is_linked(None, Some(target@));
        let rest = if linked {
            failures
        } else {
            failures.drop_last()
        };
        lemma_failures(store, m, name, audits, target, t, rest);
        if !linked {
            assert(is_failure_for(store, m, name, audits, target, last as int, failures.last()));
            assert(failures[failures.len() - 1] == failures.last());
        }
        assert forall|i: usize| #[trigger] indices.contains(i) implies with_audits(
            store,
            m,
            name,
            audits,
            i as int,
        ).is_linked(None, Some(target@)) || is_failed(
            store,
            m,
            name,
            audits,
            target,
            i as int,
            failures,
        ) by {
            let j = choose|j: int| 0 <= j < indices.len() && indices[j] == i;
            if j < n {
                assert(t[j] == i);
                assert(t.contains(i));
                if is_failed(store, m, name, audits, target, i as int, rest) {
                    let k = choose|k: int|
                        0 <= k < rest.len() && is_failure_for(
                            store,
                            m,
                            name,
                            audits,
                            target,
                            i as int,
                            #[trigger] rest[k],
                        );
                    assert(failures[k] == rest[k]);
                }
            }
        }
        assert forall|k: int| 0 <= k < failures.len() implies is_due_to(
            store,
            m,
            name,
            audits,
            target,
            indices,
            #[trigger] failures[k],
        ) by {
            if k < rest.len() {
                assert(failures[k] == rest[k]);
                assert(is_due_to(store, m, name, audits, target, t, rest[k]));
                let j = choose|j: int|
                    0 <= j < t.len() && is_failure_for(
                        store,
                        m,
                        name,
                        audits,
                        target,
                        #[trigger] t[j] as int,
                        rest[k],
                    );
                assert(indices[j] == t[j]);
            } else {
                assert(indices[n] == last);
            }
        }
    }
}

/// Whether a list holds the failure of the search for a criterion.
pub open spec fn is_failed(
    store: Store,
    m: CriteriaMapper,
    name: Seq<char>,
    audits: AuditsFile,
    target: VetVersion,
    i: int,
    failures: Seq<SearchFailure>,
) -> bool {
    exists|k: int|
        0 <= k < failures.len() && is_failure_for(
            store,
            m,
            name,
            audits,
            target,
            i,
            #[trigger] failures[k],
        )
}

spec fn is_due_to(
    store: Store,
    m: CriteriaMapper,
    name: Seq<char>,
    audits: AuditsFile,
    target: VetVersion,
    indices: Seq<usize>,
    failure: SearchFailure,
) -> bool {
    exists|j: int|
        0 <= j < indices.len() && is_failure_for(
            store,
            m,
            name,
            audits,
            target,
            #[trigger] indices[j] as int,
            failure,
        )
}

/// The audits of another project are no help if they are at odds with others. Else
/// what would still fail is listed: each of the criteria for which the version would
/// not be linked to the root, and nothing else.
pub proof fn law_imports_leave_failures(
    store: Store,
    m: CriteriaMapper,
    name: &str,
    audits: AuditsFile,
    target: VetVersion,
    set: CriteriaSet,
    r: Option<Vec<SearchFailure>>,
    i: int,
    k: int,
)
    requires
        m.wf(),
        call_ensures(registry_failures, (&store, &m, name, &audits, &target, &set), r),
    ensures
        r is None <==> exists|c: ViolationConflictView| #[trigger]
            conflicts::is_contradiction(store, Some(audits), m, name@, c),
        r matches Some(f) ==> {
            &&& set.has(i) && !with_audits(store, m, name@, audits, i).is_linked(
                None,
                Some(target@),
            ) ==> is_failed(store, m, name@, audits, target, i, f@)
            &&& 0 <= k < f@.len() ==> exists|x: int|
                set.has(x) && #[trigger] is_failure_for(
                    store,
                    m,
                    name@,
                    audits,
                    target,
                    x,
                    f@[k],
                )
        },
{
    let all = audit_graph::store_conflicts(store, m, name@, Some(audits));
    if all.len() > 0 {
        assert(all.contains(all[0]));
        conflicts::law_conflicts_are_contradictions(store, Some(audits), m, name@, all[0]);
        assert(conflicts::is_contradiction(store, Some(audits), m, name@, all[0]));
    }
    if exists|c: ViolationConflictView| #[trigger]
        conflicts::is_contradiction(store, Some(audits), m, name@, c) {
        let c = choose|c: ViolationConflictView| #[trigger]
            conflicts::is_contradiction(store, Some(audits), m, name@, c);
        conflicts::law_conflicts_are_contradictions(store, Some(audits), m, name@, c);
        assert(all.contains(c));
    }
    if let Some(f) = r {
        let indices = criteria::indices(set);
        criteria::lemma_indices_below(set, 64);
        lemma_failures(store, m, name@, audits, target, indices, f@);
        if set.has(i) {
            assert(indices.contains(i as usize));
        }
        if 0 <= k < f@.len() {
            assert(is_due_to(store, m, name@, audits, target, indices, f@[k]));
            let j = choose|j: int|
                0 <= j < indices.len() && is_failure_for(
                    store,
                    m,
                    name@,
                    audits,
                    target,
                    #[trigger] indices[j] as int,
                    f@[k],
                );
            assert(indices.contains(indices[j]));
        }
    }
}

} // verus!
