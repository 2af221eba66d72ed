//! Which audits make up for a failure.

use vstd::prelude::*;
use crate::audit_graph;
use crate::audit_graph::{EdgeView, SearchFailure};
use crate::delta;
use crate::delta::{DeltaPlan, DeltaView, DiffStat, Shortfall};
use crate::edges::{DeltaEdgeOrigin, SearchMode};
use crate::order;
use crate::retain;
use crate::search;
use crate::search::{NodeView, Query};
use crate::version;
use crate::version::{Version, VersionView, VetVersion, VetVersionView};

verus! {

/// What can be reached from a version that a search reaches, the search reaches
/// too.
pub proof fn lemma_reach_on(q: Query, on: Query, v: Option<VetVersionView>)
    requires
        q.edges == on.edges,
        q.criteria_idx == on.criteria_idx,
        q.mode == on.mode,
        q.mode != SearchMode::RegenerateExemptions,
        q.reachable(on.from),
        on.reachable(v),
    ensures
        q.reachable(v),
{
    let w = choose|w: Seq<NodeView>| #[trigger] on.is_walk(w) && w.last().version == v;
    lemma_reach_along(q, on, w, w.len() - 1);
}

proof fn lemma_reach_along(q: Query, on: Query, w: Seq<NodeView>, n: int)
    requires
        q.edges == on.edges,
        q.criteria_idx == on.criteria_idx,
        q.mode == on.mode,
        q.mode != SearchMode::RegenerateExemptions,
        q.reachable(on.from),
        on.is_walk(w),
        0 <= n < w.len(),
    ensures
        q.reachable(w[n].version),
    decreases n,
{
    if n > 0 {
        lemma_reach_along(q, on, w, n - 1);
        let a = w[n - 1];
        let b = w[n];
        assert(on.is_successor(w[n - 1], w[n - 1 + 1]));
        let k = choose|k: int| on.follows(a, b, k);
        audit_graph::lemma_reach_step(q, a.version, k);
    }
}

/// One more edge takes nothing away.
proof fn lemma_push_reaches(
    s: Seq<EdgeView>,
    e: EdgeView,
    q: Query,
    more: Query,
    w: Seq<NodeView>,
    n: int,
)
    requires
        forall|v: Option<VetVersionView>| #[trigger]
            (q.edges)(v) == audit_graph::backward_from(s, v),
        forall|v: Option<VetVersionView>| #[trigger]
            (more.edges)(v) == audit_graph::backward_from(s.push(e), v),
        q.criteria_idx == more.criteria_idx,
        q.mode == more.mode,
        q.mode != SearchMode::RegenerateExemptions,
        q.from == more.from,
        q.is_walk(w),
        0 <= n < w.len(),
    ensures
        more.reachable(w[n].version),
    decreases n,
{
    if n == 0 {
        search::lemma_start_reachable(more);
    } else {
        lemma_push_reaches(s, e, q, more, w, n - 1);
        let a = w[n - 1];
        let b = w[n];
        assert(q.is_successor(w[n - 1], w[n - 1 + 1]));
        let k = choose|k: int| q.follows(a, b, k);
        let t = s.push(e);
        assert(t.drop_last() =~= s);
        assert(t.last() == e);
        assert((more.edges)(a.version)[k] == (q.edges)(a.version)[k]);
        audit_graph::lemma_reach_step(more, a.version, k);
    }
}

/// A walk over one more edge either does without it, or comes to its second end
/// without it.
proof fn lemma_walk_splits(
    s: Seq<EdgeView>,
    e: EdgeView,
    q: Query,
    more: Query,
    w: Seq<NodeView>,
    n: int,
)
    requires
        forall|v: Option<VetVersionView>| #[trigger]
            (q.edges)(v) == audit_graph::backward_from(s, v),
        forall|v: Option<VetVersionView>| #[trigger]
            (more.edges)(v) == audit_graph::backward_from(s.push(e), v),
        q.criteria_idx == more.criteria_idx,
        q.mode == more.mode,
        q.mode != SearchMode::RegenerateExemptions,
        q.from == more.from,
        more.is_walk(w),
        0 <= n < w.len(),
    ensures
        q.reachable(w[n].version) || (e.criteria.has(q.criteria_idx) && q.reachable(e.to)),
    decreases n,
{
    if n == 0 {
        search::lemma_start_reachable(q);
    } else {
        lemma_walk_splits(s, e, q, more, w, n - 1);
        if q.reachable(w[n - 1].version) {
            let a = w[n - 1];
            let b = w[n];
            assert(more.is_successor(w[n - 1], w[n - 1 + 1]));
            let k = choose|k: int| more.follows(a, b, k);
            let t = s.push(e);
            assert(t.drop_last() =~= s);
            assert(t.last() == e);
            let old_edges = audit_graph::backward_from(s, a.version);
            if k < old_edges.len() {
                assert((more.edges)(a.version)[k] == (q.edges)(a.version)[k]);
                audit_graph::lemma_reach_step(q, a.version, k);
            } else {
                assert(e.to == a.version);
                assert((more.edges)(a.version)[k] == e.backward());
            }
        }
    }
}

/// The search for the root from another version.
spec fn restart(q: Query, v: Option<VetVersionView>) -> Query {
    Query { from: v, ..q }
}

/// A walk to the root over one more edge either does without it from some version
/// on, or goes on from its first end without it.
proof fn lemma_walk_ends(
    s: Seq<EdgeView>,
    e: EdgeView,
    q: Query,
    more: Query,
    w: Seq<NodeView>,
    n: int,
)
    requires
        forall|v: Option<VetVersionView>| #[trigger]
            (q.edges)(v) == audit_graph::backward_from(s, v),
        forall|v: Option<VetVersionView>| #[trigger]
            (more.edges)(v) == audit_graph::backward_from(s.push(e), v),
        q.criteria_idx == more.criteria_idx,
        q.mode == more.mode,
        q.mode != SearchMode::RegenerateExemptions,
        more.is_walk(w),
        0 <= n < w.len(),
    ensures
        restart(q, w[n].version).reachable(w.last().version) || restart(q, e.from).reachable(
            w.last().version,
        ),
    decreases w.len() - n,
{
    if n == w.len() - 1 {
        search::lemma_start_reachable(restart(q, w[n].version));
    } else {
        lemma_walk_ends(s, e, q, more, w, n + 1);
        let goal = w.last().version;
        if !restart(q, e.from).reachable(goal) {
            let a = w[n];
            let b = w[n + 1];
            assert(more.is_successor(w[n], w[n + 1]));
            let k = choose|k: int| more.follows(a, b, k);
            let t = s.push(e);
            assert(t.drop_last() =~= s);
            assert(t.last() == e);
            let old_edges = audit_graph::backward_from(s, a.version);
            if k < old_edges.len() {
                let r = restart(q, a.version);
                search::lemma_start_reachable(r);
                assert((more.edges)(a.version)[k] == (r.edges)(a.version)[k]);
                audit_graph::lemma_reach_step(r, a.version, k);
                lemma_reach_on(r, restart(q, b.version), goal);
            } else {
                assert(e.to == a.version);
                assert((more.edges)(a.version)[k] == e.backward());
                assert(b.version == e.from);
            }
        }
    }
}

/// An audit makes up for a failure exactly if it counts for the criterion and
/// leads from a version that is reached from the root to one that is reached from
/// the package.
pub proof fn law_audit_heals_exactly_if_it_connects(
    s: Seq<EdgeView>,
    e: EdgeView,
    criteria_idx: int,
    version: VetVersionView,
    mode: SearchMode,
    failure: SearchFailure,
)
    requires
        audit_graph::is_search_result(
            s,
            criteria_idx,
            version,
            mode,
            Err::<Vec<DeltaEdgeOrigin>, SearchFailure>(failure),
        ),
    ensures
        audit_graph::to_root(s.push(e), criteria_idx, version, mode).reachable(None) <==> (
        e.criteria.has(criteria_idx) && delta::nodes(failure.reachable_from_root@).contains(e.from)
            && delta::nodes(failure.reachable_from_target@).contains(e.to)),
{
    let q = audit_graph::to_root(s, criteria_idx, version, mode);
    let t = audit_graph::to_target(s, criteria_idx, version, mode);
    let more = audit_graph::to_root(s.push(e), criteria_idx, version, mode);
    delta::lemma_listed(failure.reachable_from_root@, e.from);
    delta::lemma_listed(failure.reachable_from_target@, e.to);
    assert(t.reachable(e.from) == search::version_listed(failure.reachable_from_root@, e.from));
    assert(q.reachable(e.to) == search::version_listed(failure.reachable_from_target@, e.to));
    let on = restart(q, e.from);
    if e.criteria.has(criteria_idx) && t.reachable(e.from) && q.reachable(e.to) {
        let w = choose|w: Seq<NodeView>| #[trigger] q.is_walk(w) && w.last().version == e.to;
        lemma_push_reaches(s, e, q, more, w, w.len() - 1);
        let k = audit_graph::lemma_backward_has(s.push(e), s.len() as int);
        assert(s.push(e)[s.len() as int] == e);
        audit_graph::lemma_reach_step(more, e.to, k);
        let u = choose|u: Seq<NodeView>| #[trigger] t.is_walk(u) && u.last().version == e.from;
        audit_graph::lemma_turn_back(s, t, on, u, 0);
        let more_on = restart(more, e.from);
        let x = choose|x: Seq<NodeView>| #[trigger]
            on.is_walk(x) && x.last().version == None::<VetVersionView>;
        lemma_push_reaches(s, e, on, more_on, x, x.len() - 1);
        lemma_reach_on(more, more_on, None);
    }
    if more.reachable(None) {
        let w = choose|w: Seq<NodeView>| #[trigger]
            more.is_walk(w) && w.last().version == None::<VetVersionView>;
        lemma_walk_splits(s, e, q, more, w, w.len() - 1);
        lemma_walk_ends(s, e, q, more, w, 0);
        assert(restart(q, w[0].version) == q);
        assert(on.reachable(None));
        let x = choose|x: Seq<NodeView>| #[trigger]
            on.is_walk(x) && x.last().version == None::<VetVersionView>;
        audit_graph::lemma_turn_forth(s, on, t, x, 0);
        assert(x[0].version == e.from);
    }
}

/// The versions that are left are reached from the root in all failures.
proof fn lemma_root_common(s: Shortfall, v: Option<VetVersionView>, k: int)
    requires
        s.from_root().contains(v),
        0 <= k < s.failures.len(),
    ensures
        s.failures[k].0.contains(v),
{
    let first = s.failures[0].0;
    let j = retain::lemma_kept_member(
        first,
        Seq::new(first.len(), |j: int| s.has_sources(first[j]) && s.common_root(first[j])),
        v,
    );
    assert(first[j] == v);
    assert(s.common_root(v));
}

/// The versions that are left are reached from the package in all failures.
proof fn lemma_target_common(s: Shortfall, v: Option<VetVersionView>, k: int)
    requires
        s.from_target().contains(v),
        0 <= k < s.failures.len(),
    ensures
        s.failures[k].1.contains(v),
{
    let first = s.failures[0].1;
    let j = retain::lemma_kept_member(
        first,
        Seq::new(first.len(), |j: int| s.has_sources(first[j]) && s.common_target(first[j])),
        v,
    );
    assert(first[j] == v);
    assert(s.common_target(v));
}

proof fn lemma_below_member(s: Seq<Option<VetVersionView>>, v: Option<VetVersionView>)
    ensures
        delta::closest_below(s, v) matches Some(x) ==> s.contains(x),
    decreases s.len(),
{
    if s.len() > 0 {
        lemma_below_member(s.drop_last(), v);
        assert(s.contains(s.last())) by {
            assert(s[s.len() - 1] == s.last());
        }
        if let Some(x) = delta::closest_below(s.drop_last(), v) {
            let j = choose|j: int| 0 <= j < s.drop_last().len() && s.drop_last()[j] == x;
            assert(s[j] == x);
        }
    }
}

proof fn lemma_above_member(s: Seq<Option<VetVersionView>>, v: Option<VetVersionView>)
    ensures
        delta::closest_above(s, v) matches Some(x) ==> s.contains(x),
    decreases s.len(),
{
    if s.len() > 0 {
        lemma_above_member(s.drop_first(), v);
        assert(s.contains(s[0]));
        if let Some(x) = delta::closest_above(s.drop_first(), v) {
            let j = choose|j: int| 0 <= j < s.drop_first().len() && s.drop_first()[j] == x;
            assert(s[j + 1] == x);
        }
    }
}

/// Every candidate leads from one of the roots to one of the targets.
proof fn lemma_candidate(
    roots: Seq<Option<VetVersionView>>,
    targets: Seq<Option<VetVersionView>>,
    n: int,
)
    requires
        0 <= n < delta::candidates(roots, targets).len(),
    ensures
        roots.contains(delta::candidates(roots, targets)[n].from),
        targets.contains(Some(delta::candidates(roots, targets)[n].to)),
    decreases targets.len(),
{
    let all = delta::candidates(roots, targets);
    let rest = delta::candidates(roots, targets.drop_last());
    if n < rest.len() {
        lemma_candidate(roots, targets.drop_last(), n);
        assert(all[n] == rest[n]);
        let t = targets.drop_last();
        let j = choose|j: int| 0 <= j < t.len() && t[j] == Some(all[n].to);
        assert(targets[j] == Some(all[n].to));
    } else {
        let dest = targets.last()->0;
        assert(targets[targets.len() - 1] == Some(dest));
        lemma_below_member(roots, Some(dest));
        lemma_above_member(roots, Some(dest));
        assert(all[n] == delta::deltas_to(roots, dest)[n - rest.len()]);
    }
}

proof fn lemma_insert_member(
    s: Seq<Option<VetVersionView>>,
    v: Option<VetVersionView>,
    x: Option<VetVersionView>,
)
    requires
        delta::insert_node(s, v).contains(x),
    ensures
        x == v || s.contains(x),
    decreases s.len(),
{
    let all = delta::insert_node(s, v);
    let n = choose|n: int| 0 <= n < all.len() && all[n] == x;
    if s.len() == 0 || order::lex_le(version::node_key(s.last()), version::node_key(v)) {
        if n < s.len() {
            assert(s[n] == x);
        }
    } else if n == all.len() - 1 {
        assert(s[s.len() - 1] == x);
    } else {
        let rest = delta::insert_node(s.drop_last(), v);
        assert(rest[n] == x);
        lemma_insert_member(s.drop_last(), v, x);
        if x != v {
            let j = choose|j: int| 0 <= j < s.drop_last().len() && s.drop_last()[j] == x;
            assert(s[j] == x);
        }
    }
}

/// The smallest recommendation is for one of the candidates.
proof fn lemma_smallest_member(s: Seq<DeltaView>, stats: Seq<Option<DiffStat>>) -> (n: int)
    requires
        delta::smallest(delta::diffed(s, stats)) is Some,
    ensures
        0 <= n < s.len(),
        delta::smallest(delta::diffed(s, stats))->0.from == s[n].from,
        delta::smallest(delta::diffed(s, stats))->0.to == s[n].to,
    decreases s.len(),
{
    let all = delta::diffed(s, stats);
    let rest = delta::diffed(s.drop_last(), stats);
    match stats[s.len() - 1] {
        Some(diffstat) => {
            assert(all.drop_last() =~= rest);
            match delta::smallest(rest) {
                Some(best) => if all.last().diffstat.lines() < best.diffstat.lines() {
                    s.len() - 1
                } else {
                    lemma_smallest_member(s.drop_last(), stats)
                },
                None => s.len() - 1,
            }
        },
        None => lemma_smallest_member(s.drop_last(), stats),
    }
}

/// What is recommended connects the two sides of every failure: it starts at a
/// version that is reached from the root, and ends at one that is reached from
/// the package, or at the published version that the extra change to the package
/// starts from.
pub proof fn law_recommendation_connects(
    s: Shortfall,
    plan: DeltaPlan,
    stats: Seq<Option<DiffStat>>,
    k: int,
)
    requires
        s.is_plan(plan),
        delta::smallest(delta::diffed(delta::deltas(plan.candidates@), stats)) is Some,
        0 <= k < s.failures.len(),
    ensures
        ({
            let best = delta::smallest(
                delta::diffed(delta::deltas(plan.candidates@), stats),
            )->0;
            s.failures[k].0.contains(best.from) && (s.failures[k].1.contains(Some(best.to))
                || delta::opt_delta(plan.extra) == Some(
                DeltaView { from: Some(best.to), to: s.version },
            ))
        }),
{
    let roots = s.from_root();
    let targets = s.from_target();
    let d = delta::deltas(plan.candidates@);
    let n = lemma_smallest_member(d, stats);
    let from = d[n].from;
    let to: Option<VetVersionView> = Some(d[n].to);
    let published: Option<VetVersionView> = if s.version.git_rev is Some {
        let v = choose|v: Option<VersionView>| #[trigger]
            s.is_closest_published(v) && s.is_plan_with(
                match v {
                    Some(semver) => Some(VetVersionView { semver, git_rev: None }),
                    None => None,
                },
                plan,
            );
        match v {
            Some(semver) => Some(VetVersionView { semver, git_rev: None }),
            None => None,
        }
    } else {
        None
    };
    assert(s.is_plan_with(published, plan));
    if s.version.git_rev is Some && !roots.contains(published) {
        let rest = delta::without(targets, Some(s.version));
        let list = if rest.contains(published) {
            rest
        } else {
            delta::insert_node(rest, published)
        };
        lemma_candidate(roots, list, n);
        lemma_root_common(s, from, k);
        if !rest.contains(published) {
            lemma_insert_member(rest, published, to);
        }
        if rest.contains(to) {
            let j = retain::lemma_kept_member(targets, delta::differs(targets, Some(s.version)), to);
            assert(targets.contains(to));
            lemma_target_common(s, to, k);
        }
    } else {
        lemma_candidate(roots, targets, n);
        lemma_root_common(s, from, k);
        lemma_target_common(s, to, k);
    }
}

/// An audit of what is recommended vets the package, for each criterion that
/// failed and that it is for. For a Git revision that takes an extra audit, see
/// [`law_recommendation_connects`].
pub proof fn law_recommended_audit_heals(
    s: Seq<EdgeView>,
    e: EdgeView,
    criteria_idx: int,
    package_version: VetVersion,
    mode: SearchMode,
    failures: Seq<&SearchFailure>,
    k: int,
    known: Option<&Vec<Version>>,
    plan: DeltaPlan,
    stats: Seq<Option<DiffStat>>,
)
    requires
        0 <= k < failures.len(),
        audit_graph::is_search_result(
            s,
            criteria_idx,
            package_version@,
            mode,
            Err::<Vec<DeltaEdgeOrigin>, SearchFailure>(*failures[k]),
        ),
        delta::shortfall(package_version, failures, known).is_plan(plan),
        plan.extra is None,
        delta::smallest(delta::diffed(delta::deltas(plan.candidates@), stats)) matches Some(best)
            && e.from == best.from && e.to == Some(best.to),
        e.criteria.has(criteria_idx),
    ensures
        audit_graph::to_root(s.push(e), criteria_idx, package_version@, mode).reachable(None),
{
    let shortfall = delta::shortfall(package_version, failures, known);
    law_recommendation_connects(shortfall, plan, stats, k);
    let f = *failures[k];
    assert(shortfall.failures[k] == (
        delta::nodes(f.reachable_from_root@),
        delta::nodes(f.reachable_from_target@),
    ));
    law_audit_heals_exactly_if_it_connects(s, e, criteria_idx, package_version@, mode, f);
}

} // verus!
