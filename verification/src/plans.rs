//! Which changes are planned for an audit, and which of them is recommended.

use vstd::prelude::*;
use crate::audit_graph::SearchFailure;
use crate::delta;
use crate::delta::{plan_delta, recommend_delta, DeltaPlan, DeltaView, DiffRecommendation, DiffStat};
use crate::order;
use crate::order::Keyed;
use crate::retain;
use crate::version;
use crate::version::{Version, VersionView, VetVersion, VetVersionView};

verus! {

/// Whether one version comes before another.
pub open spec fn is_below(v: Option<VetVersionView>, w: Option<VetVersionView>) -> bool {
    order::lex_lt(version::node_key(v), version::node_key(w))
}

/// Whether a version can be fetched: the empty one always, a Git revision only if it
/// is the package itself, any other if it was published or if it is not known what
/// was.
pub open spec fn is_available(
    package: VetVersion,
    known: Option<&Vec<Version>>,
    v: Option<VetVersionView>,
) -> bool {
    v matches Some(v) ==> if v.git_rev is Some {
        v == package@
    } else {
        known matches Some(list) ==> exists|j: int|
            0 <= j < list@.len() && (#[trigger] list@[j])@ == v.semver
    }
}

/// Whether a change may start at a version: it can be fetched, and every failure
/// reached it from the root.
pub open spec fn is_origin(
    package: VetVersion,
    failures: Seq<&SearchFailure>,
    known: Option<&Vec<Version>>,
    v: Option<VetVersionView>,
) -> bool {
    is_available(package, known, v) && forall|k: int|
        0 <= k < failures.len() ==> delta::nodes(
            (#[trigger] failures[k]).reachable_from_root@,
        ).contains(v)
}

/// Whether a change may end at a version: it can be fetched, and every failure
/// reached it from the package.
pub open spec fn is_goal(
    package: VetVersion,
    failures: Seq<&SearchFailure>,
    known: Option<&Vec<Version>>,
    v: Option<VetVersionView>,
) -> bool {
    is_available(package, known, v) && forall|k: int|
        0 <= k < failures.len() ==> delta::nodes(
            (#[trigger] failures[k]).reachable_from_target@,
        ).contains(v)
}

/// Whether a change starts at the version closest to its end, on either side of it,
/// among those at which changes may start.
pub open spec fn is_shortest(
    package: VetVersion,
    failures: Seq<&SearchFailure>,
    known: Option<&Vec<Version>>,
    d: DeltaView,
) -> bool {
    &&& is_origin(package, failures, known, d.from)
    &&& forall|w: Option<VetVersionView>| #[trigger]
        is_origin(package, failures, known, w) && is_below(w, Some(d.to)) == is_below(
            d.from,
            Some(d.to),
        ) ==> if is_below(d.from, Some(d.to)) {
            !is_below(d.from, w)
        } else {
            !is_below(w, d.from)
        }
}

/// Whether a version is the one that a Git revision counts as: the largest published
/// one that is not larger, the version of the revision if nothing is known, and the
/// empty one if there is none.
pub open spec fn is_stand_in(
    package: VetVersion,
    known: Option<&Vec<Version>>,
    p: Option<VetVersionView>,
) -> bool {
    let limit = version::version_key(package@.semver);
    match known {
        None => p == Some(VetVersionView { semver: package@.semver, git_rev: None }),
        Some(list) => match p {
            None => forall|j: int|
                0 <= j < list@.len() ==> order::lex_lt(
                    limit,
                    version::version_key((#[trigger] list@[j])@),
                ),
            Some(p) => {
                &&& p.git_rev is None
                &&& exists|j: int| 0 <= j < list@.len() && (#[trigger] list@[j])@ == p.semver
                &&& order::lex_le(version::version_key(p.semver), limit)
                &&& forall|j: int|
                    0 <= j < list@.len() && order::lex_lt(
                        version::version_key(p.semver),
                        version::version_key((#[trigger] list@[j])@),
                    ) ==> order::lex_lt(limit, version::version_key(list@[j]@))
            },
        },
    }
}

spec fn sorted(s: Seq<Option<VetVersionView>>) -> bool {
    forall|i: int, j: int| 0 <= i < j < s.len() ==> !is_below(#[trigger] s[j], #[trigger] s[i])
}

proof fn lemma_nodes_sorted(s: Seq<Option<VetVersion>>)
    requires
        order::is_sorted(s),
    ensures
        sorted(delta::nodes(s)),
{
    let n = delta::nodes(s);
    assert forall|i: int, j: int| 0 <= i < j < n.len() implies !is_below(
        #[trigger] n[j],
        #[trigger] n[i],
    ) by {
        assert(order::lex_le(s[i].sort_key(), s[j].sort_key()));
        assert(version::node(s[i]) == n[i]);
        assert(version::node(s[j]) == n[j]);
        order::lemma_lex_total(version::node_key(n[i]), version::node_key(n[j]));
    }
}

proof fn lemma_kept_sorted(s: Seq<Option<VetVersionView>>, flags: Seq<bool>)
    requires
        sorted(s),
    ensures
        sorted(retain::kept(s, flags)),
    decreases s.len(),
{
    if s.len() > 0 {
        let t = s.drop_last();
        let r = retain::kept(s, flags);
        let q = retain::kept(t, flags);
        lemma_kept_sorted(t, flags);
        assert forall|i: int, j: int| 0 <= i < j < r.len() implies !is_below(
            #[trigger] r[j],
            #[trigger] r[i],
        ) by {
            if j == q.len() {
                assert(q.contains(q[i]));
                let n = retain::lemma_kept_member(t, flags, q[i]);
                assert(s[n] == r[i]);
                assert(s[s.len() - 1] == r[j]);
            } else {
                assert(r[i] == q[i] && r[j] == q[j]);
            }
        }
    }
}

proof fn lemma_order(
    a: Option<VetVersionView>,
    b: Option<VetVersionView>,
    c: Option<VetVersionView>,
)
    ensures
        !is_below(a, b) && !is_below(b, c) ==> !is_below(a, c),
        is_below(a, b) ==> !is_below(b, a),
        !is_below(a, a),
{
    let x = version::node_key(a);
    let y = version::node_key(b);
    let z = version::node_key(c);
    order::lemma_lex_total(x, y);
    order::lemma_lex_total(y, z);
    order::lemma_lex_total(x, z);
    order::lemma_lex_refl(x);
    if order::lex_le(z, y) && order::lex_le(y, x) {
        order::lemma_lex_trans(z, y, x);
    }
}

proof fn lemma_below(s: Seq<Option<VetVersionView>>, v: Option<VetVersionView>)
    requires
        sorted(s),
    ensures
        match delta::closest_below(s, v) {
            Some(x) => s.contains(x) && is_below(x, v) && forall|w: Option<VetVersionView>|
                #[trigger]
                s.contains(w) && is_below(w, v) ==> !is_below(x, w),
            None => forall|w: Option<VetVersionView>| #[trigger] s.contains(w) ==> !is_below(w, v),
        },
    decreases s.len(),
{
    if s.len() > 0 {
        let t = s.drop_last();
        if is_below(s.last(), v) {
            assert(s[s.len() - 1] == s.last());
            assert forall|w: Option<VetVersionView>| #[trigger] s.contains(w) implies !is_below(
                s.last(),
                w,
            ) by {
                let j = choose|j: int| 0 <= j < s.len() && s[j] == w;
                lemma_order(w, w, w);
                if j < s.len() - 1 {
                    assert(!is_below(s[s.len() - 1], s[j]));
                }
            }
        } else {
            lemma_below(t, v);
            assert forall|w: Option<VetVersionView>| #[trigger]
                s.contains(w) && is_below(w, v) implies t.contains(w) by {
                let j = choose|j: int| 0 <= j < s.len() && s[j] == w;
                assert(t[j] == w);
            }
            if let Some(x) = delta::closest_below(t, v) {
                let j = choose|j: int| 0 <= j < t.len() && t[j] == x;
                assert(s[j] == x);
            }
        }
    }
}

proof fn lemma_above(s: Seq<Option<VetVersionView>>, v: Option<VetVersionView>)
    requires
        sorted(s),
    ensures
        match delta::closest_above(s, v) {
            Some(x) => s.contains(x) && !is_below(x, v) && forall|w: Option<VetVersionView>|
                #[trigger]
                s.contains(w) && !is_below(w, v) ==> !is_below(w, x),
            None => forall|w: Option<VetVersionView>| #[trigger] s.contains(w) ==> is_below(w, v),
        },
    decreases s.len(),
{
    if s.len() > 0 {
        let t = s.drop_first();
        if !is_below(s[0], v) {
            assert forall|w: Option<VetVersionView>| #[trigger] s.contains(w) implies !is_below(
                w,
                s[0],
            ) by {
                let j = choose|j: int| 0 <= j < s.len() && s[j] == w;
                lemma_order(w, w, w);
                if j > 0 {
                    assert(!is_below(s[j], s[0]));
                }
            }
        } else {
            lemma_above(t, v);
            assert forall|w: Option<VetVersionView>| #[trigger]
                s.contains(w) && !is_below(w, v) implies t.contains(w) by {
                let j = choose|j: int| 0 <= j < s.len() && s[j] == w;
                assert(t[j - 1] == w);
            }
            if let Some(x) = delta::closest_above(t, v) {
                let j = choose|j: int| 0 <= j < t.len() && t[j] == x;
                assert(s[j + 1] == x);
            }
        }
    }
}

proof fn lemma_candidates(
    roots: Seq<Option<VetVersionView>>,
    targets: Seq<Option<VetVersionView>>,
    d: DeltaView,
)
    ensures
        delta::candidates(roots, targets).contains(d) <==> targets.contains(Some(d.to))
            && delta::deltas_to(roots, d.to).contains(d),
    decreases targets.len(),
{
    if targets.len() > 0 {
        let t = targets.drop_last();
        let all = delta::candidates(roots, targets);
        let first = delta::candidates(roots, t);
        let added = match targets.last() {
            Some(dest) => delta::deltas_to(roots, dest),
            None => Seq::empty(),
        };
        lemma_candidates(roots, t, d);
        assert(all == first + added);
        if all.contains(d) {
            let j = choose|j: int| 0 <= j < all.len() && all[j] == d;
            if j < first.len() {
                assert(first[j] == d);
                let k = choose|k: int| 0 <= k < t.len() && t[k] == Some(d.to);
                assert(targets[k] == Some(d.to));
            } else {
                assert(added[j - first.len()] == d);
                assert(targets[targets.len() - 1] == Some(d.to));
            }
        }
        if targets.contains(Some(d.to)) && delta::deltas_to(roots, d.to).contains(d) {
            let k = choose|k: int| 0 <= k < targets.len() && targets[k] == Some(d.to);
            if k < t.len() {
                assert(t[k] == Some(d.to));
                let j = choose|j: int| 0 <= j < first.len() && first[j] == d;
                assert(all[j] == d);
            } else {
                let j = choose|j: int| 0 <= j < added.len() && added[j] == d;
                assert(all[first.len() + j] == d);
            }
        }
    }
}

proof fn lemma_lists(
    package: VetVersion,
    failures: Seq<&SearchFailure>,
    known: Option<&Vec<Version>>,
    v: Option<VetVersionView>,
)
    requires
        failures.len() > 0,
    ensures
        delta::shortfall(package, failures, known).from_root().contains(v) <==> is_origin(
            package,
            failures,
            known,
            v,
        ),
        delta::shortfall(package, failures, known).from_target().contains(v) <==> is_goal(
            package,
            failures,
            known,
            v,
        ),
{
    let s = delta::shortfall(package, failures, known);
    assert(s.has_sources(v) == is_available(package, known, v)) by {
        if let (Some(list), Some(v)) = (known, v) {
            let all = delta::semvers(list@);
            if all.contains(v.semver) {
                let j = choose|j: int| 0 <= j < all.len() && all[j] == v.semver;
                assert(list@[j]@ == v.semver);
            }
            if exists|j: int| 0 <= j < list@.len() && (#[trigger] list@[j])@ == v.semver {
                let j = choose|j: int| 0 <= j < list@.len() && (#[trigger] list@[j])@ == v.semver;
                assert(all[j] == v.semver);
            }
        }
    }
    assert forall|k: int| 0 <= k < failures.len() implies #[trigger] s.failures[k] == (
        delta::nodes(failures[k].reachable_from_root@),
        delta::nodes(failures[k].reachable_from_target@),
    ) by {}
    let a = s.failures[0].0;
    let x = Seq::new(a.len(), |j: int| s.has_sources(a[j]) && s.common_root(a[j]));
    if s.from_root().contains(v) {
        let j = retain::lemma_kept_member(a, x, v);
        assert forall|k: int| 0 <= k < failures.len() implies delta::nodes(
            (#[trigger] failures[k]).reachable_from_root@,
        ).contains(v) by {
            assert(s.failures[k].0.contains(v)) by {
                if k == 0 {
                    assert(a[j] == v);
                }
            }
        }
    }
    if is_origin(package, failures, known, v) {
        assert forall|k: int| 0 <= k < failures.len() implies (
        #[trigger] s.failures[k]).0.contains(v) by {
            assert(delta::nodes(failures[k].reachable_from_root@).contains(v));
        }
        assert(s.failures[0].0.contains(v));
        let j = choose|j: int| 0 <= j < a.len() && a[j] == v;
        let n = retain::lemma_kept_has(a, x, j);
        assert(s.from_root()[n] == v);
    }
    let b = s.failures[0].1;
    let y = Seq::new(b.len(), |j: int| s.has_sources(b[j]) && s.common_target(b[j]));
    if s.from_target().contains(v) {
        let j = retain::lemma_kept_member(b, y, v);
        assert forall|k: int| 0 <= k < failures.len() implies delta::nodes(
            (#[trigger] failures[k]).reachable_from_target@,
        ).contains(v) by {
            assert(s.failures[k].1.contains(v)) by {
                if k == 0 {
                    assert(b[j] == v);
                }
            }
        }
    }
    if is_goal(package, failures, known, v) {
        assert forall|k: int| 0 <= k < failures.len() implies (
        #[trigger] s.failures[k]).1.contains(v) by {
            assert(delta::nodes(failures[k].reachable_from_target@).contains(v));
        }
        assert(s.failures[0].1.contains(v));
        let j = choose|j: int| 0 <= j < b.len() && b[j] == v;
        let n = retain::lemma_kept_has(b, y, j);
        assert(s.from_target()[n] == v);
    }
}

/// The changes to one version are the shortest ones.
proof fn lemma_deltas(
    package: VetVersion,
    failures: Seq<&SearchFailure>,
    known: Option<&Vec<Version>>,
    d: DeltaView,
)
    requires
        failures.len() > 0,
        order::is_sorted(failures[0].reachable_from_root@),
    ensures
        ({
            let roots = delta::shortfall(package, failures, known).from_root();
            &&& delta::deltas_to(roots, d.to).contains(d) ==> is_shortest(
                package,
                failures,
                known,
                d,
            )
            &&& is_shortest(package, failures, known, d) && (forall|w: Option<VetVersionView>|
                #[trigger]
                is_origin(package, failures, known, w) && w != d.from ==> is_below(w, d.from)
                    || is_below(d.from, w)) ==> delta::deltas_to(roots, d.to).contains(d)
        }),
{
    let s = delta::shortfall(package, failures, known);
    let roots = s.from_root();
    let first = s.failures[0].0;
    assert(first == delta::nodes(failures[0].reachable_from_root@));
    lemma_nodes_sorted(failures[0].reachable_from_root@);
    lemma_kept_sorted(
        first,
        Seq::new(first.len(), |j: int| s.has_sources(first[j]) && s.common_root(first[j])),
    );
    let to = Some(d.to);
    lemma_below(roots, to);
    lemma_above(roots, to);
    assert forall|w: Option<VetVersionView>| #[trigger]
        is_origin(package, failures, known, w) == roots.contains(w) by {
        lemma_lists(package, failures, known, w);
    }
    assert forall|w: Option<VetVersionView>| #[trigger]
        roots.contains(w) == is_origin(package, failures, known, w) by {
        lemma_lists(package, failures, known, w);
    }
    let all = delta::deltas_to(roots, d.to);
    let below = delta::closest_below(roots, to);
    let above = delta::closest_above(roots, to);
    if all.contains(d) {
        let j = choose|j: int| 0 <= j < all.len() && all[j] == d;
        assert(below == Some(d.from) || above == Some(d.from));
    }
    if is_shortest(package, failures, known, d) && (forall|w: Option<VetVersionView>| #[trigger]
        is_origin(package, failures, known, w) && w != d.from ==> is_below(w, d.from) || is_below(
            d.from,
            w,
        )) {
        assert(roots.contains(d.from));
        if is_below(d.from, to) {
            assert(below is Some);
            let x = below->0;
            assert(roots.contains(x));
            assert(is_origin(package, failures, known, x));
            assert(x == d.from);
            assert(all[0] == d);
        } else {
            assert(above is Some);
            let x = above->0;
            assert(roots.contains(x));
            assert(is_origin(package, failures, known, x));
            assert(x == d.from);
            assert(all.last() == d);
            assert(all[all.len() - 1] == d);
        }
    }
}

/// The planned changes are those to the goals from the closest origins, both from
/// below and from above. An origin that shares its place with no other is never
/// passed over.
///
/// A Git revision that does not start from an audited version gives way to the
/// published version that it counts as.
pub proof fn law_plans_hold_the_shortest_changes(
    package: VetVersion,
    failures: &Vec<&SearchFailure>,
    known: Option<&Vec<Version>>,
    plan: DeltaPlan,
    d: DeltaView,
)
    requires
        call_ensures(plan_delta, (&package, failures, known), Some(plan)),
        order::is_sorted(failures@[0].reachable_from_root@),
    ensures
        ({
            let f = failures@;
            let planned = delta::deltas(plan.candidates@).contains(d);
            let best = is_shortest(package, f, known, d);
            let alone = forall|w: Option<VetVersionView>| #[trigger]
                is_origin(package, f, known, w) && w != d.from ==> is_below(w, d.from) || is_below(
                    d.from,
                    w,
                );
            &&& planned ==> best
            &&& package@.git_rev is None ==> {
                &&& plan.extra is None
                &&& planned ==> is_goal(package, f, known, Some(d.to))
                &&& is_goal(package, f, known, Some(d.to)) && best && alone ==> planned
            }
            &&& package@.git_rev is Some ==> exists|p: Option<VetVersionView>| #[trigger]
                is_stand_in(package, known, p) && {
                    let moved = !is_origin(package, f, known, p);
                    let aimed = is_goal(package, f, known, Some(d.to)) && (moved ==> d.to
                        != package@) || moved && p == Some(d.to);
                    &&& planned ==> aimed
                    &&& aimed && best && alone ==> planned
                    &&& delta::opt_delta(plan.extra) == if moved && !is_goal(package, f, known, p) {
                        Some(DeltaView { from: p, to: package@ })
                    } else {
                        None
                    }
                }
        }),
{
    let f = failures@;
    let s = delta::shortfall(package, f, known);
    let roots = s.from_root();
    let targets = s.from_target();
    assert(f.len() > 0 && s.is_plan(plan));
    lemma_deltas(package, f, known, d);
    lemma_lists(package, f, known, Some(d.to));
    if package@.git_rev is None {
        lemma_candidates(roots, targets, d);
    } else {
        let v = choose|v: Option<VersionView>| #[trigger]
            s.is_closest_published(v) && s.is_plan_with(
                match v {
                    Some(semver) => Some(VetVersionView { semver, git_rev: None }),
                    None => None,
                },
                plan,
            );
        let p = match v {
            Some(semver) => Some(VetVersionView { semver, git_rev: None }),
            None => None,
        };
        lemma_stand_in(package, f, known, v);
        assert(is_stand_in(package, known, p));
        lemma_lists(package, f, known, p);
        let rest = delta::without(targets, Some(package@));
        lemma_without(targets, Some(package@), p);
        lemma_without(targets, Some(package@), Some(d.to));
        lemma_candidates(roots, targets, d);
        lemma_candidates(roots, rest, d);
        lemma_insert(rest, p, Some(d.to));
        lemma_candidates(roots, delta::insert_node(rest, p), d);
    }
}

proof fn lemma_stand_in(
    package: VetVersion,
    failures: Seq<&SearchFailure>,
    known: Option<&Vec<Version>>,
    v: Option<VersionView>,
)
    requires
        delta::shortfall(package, failures, known).is_closest_published(v),
    ensures
        is_stand_in(
            package,
            known,
            match v {
                Some(semver) => Some(VetVersionView { semver, git_rev: None }),
                None => None,
            },
        ),
{
    let limit = version::version_key(package@.semver);
    if let Some(list) = known {
        let all = delta::semvers(list@);
        assert forall|j: int| 0 <= j < list@.len() implies all.contains(
            (#[trigger] list@[j])@,
        ) by {
            assert(all[j] == list@[j]@);
        }
        match v {
            Some(x) => {
                let j = choose|j: int| 0 <= j < all.len() && all[j] == x;
                assert(list@[j]@ == x);
                assert forall|j: int|
                    0 <= j < list@.len() && order::lex_lt(
                        version::version_key(x),
                        version::version_key((#[trigger] list@[j])@),
                    ) implies order::lex_lt(limit, version::version_key(list@[j]@)) by {
                    let y = version::version_key(list@[j]@);
                    assert(all.contains(list@[j]@));
                    order::lemma_lex_total(y, limit);
                }
            },
            None => {
                let s = delta::shortfall(package, failures, known);
                assert(s.is_closest_published(None) == forall|w: VersionView| #[trigger]
                    s.known->0.contains(w) ==> !order::lex_le(
                        version::version_key(w),
                        version::version_key(s.version.semver),
                    ));
                assert forall|j: int| 0 <= j < list@.len() implies order::lex_lt(
                    limit,
                    version::version_key((#[trigger] list@[j])@),
                ) by {
                    let y = version::version_key(list@[j]@);
                    assert(s.known->0.contains(list@[j]@));
                    order::lemma_lex_total(y, limit);
                }
            },
        }
    }
}

proof fn lemma_without(
    s: Seq<Option<VetVersionView>>,
    v: Option<VetVersionView>,
    w: Option<VetVersionView>,
)
    ensures
        delta::without(s, v).contains(w) <==> s.contains(w) && w != v,
{
    let flags = delta::differs(s, v);
    if delta::without(s, v).contains(w) {
        let j = retain::lemma_kept_member(s, flags, w);
        assert(s[j] == w);
    }
    if s.contains(w) && w != v {
        let j = choose|j: int| 0 <= j < s.len() && s[j] == w;
        let n = retain::lemma_kept_has(s, flags, j);
        assert(delta::without(s, v)[n] == w);
    }
}

proof fn lemma_insert(
    s: Seq<Option<VetVersionView>>,
    v: Option<VetVersionView>,
    w: Option<VetVersionView>,
)
    ensures
        delta::insert_node(s, v).contains(w) <==> s.contains(w) || w == v,
    decreases s.len(),
{
    let r = delta::insert_node(s, v);
    if s.len() == 0 || order::lex_le(version::node_key(s.last()), version::node_key(v)) {
        assert(r == s.push(v));
        assert(r[s.len() as int] == v);
        if s.contains(w) {
            let j = choose|j: int| 0 <= j < s.len() && s[j] == w;
            assert(r[j] == w);
        }
        if r.contains(w) {
            let j = choose|j: int| 0 <= j < r.len() && r[j] == w;
            assert(j < s.len() ==> s[j] == w);
        }
    } else {
        let t = s.drop_last();
        let q = delta::insert_node(t, v);
        lemma_insert(t, v, w);
        assert(r == q.push(s.last()));
        if r.contains(w) {
            let j = choose|j: int| 0 <= j < r.len() && r[j] == w;
            if j < q.len() {
                assert(q[j] == w);
                if t.contains(w) {
                    let k = choose|k: int| 0 <= k < t.len() && t[k] == w;
                    assert(s[k] == w);
                }
            } else {
                assert(s[s.len() - 1] == w);
            }
        }
        if s.contains(w) || w == v {
            if w == v || t.contains(w) {
                let j = choose|j: int| 0 <= j < q.len() && q[j] == w;
                assert(r[j] == w);
            } else {
                let k = choose|k: int| 0 <= k < s.len() && s[k] == w;
                if k < t.len() {
                    assert(t[k] == w);
                }
                assert(r[q.len() as int] == w);
            }
        }
    }
}

/// The recommended change is planned, could be diffed, and is the first of those with
/// the fewest lines. There is one exactly if some planned change could be diffed. The
/// extra change is recommended exactly if it is planned and could be diffed.
pub proof fn law_smallest_change_is_recommended(
    plan: DeltaPlan,
    diffstats: &Vec<Option<DiffStat>>,
    extra_diffstat: Option<DiffStat>,
    r: Option<(DiffRecommendation, Option<DiffRecommendation>)>,
)
    requires
        call_ensures(recommend_delta, (&plan, diffstats, extra_diffstat), r),
        diffstats@.len() == plan.candidates@.len(),
    ensures
        r is None <==> forall|j: int|
            0 <= j < diffstats@.len() ==> (#[trigger] diffstats@[j]) is None,
        r matches Some((best, extra)) ==> {
            let lines = best.diffstat.insertions + best.diffstat.deletions;
            &&& exists|j: int|
                {
                    &&& 0 <= j < diffstats@.len()
                    &&& #[trigger] diffstats@[j] == Some(best.diffstat)
                    &&& version::node(plan.candidates@[j].from) == version::node(best.from)
                    &&& plan.candidates@[j].to@ == best.to@
                    &&& forall|k: int|
                        0 <= k < j && (#[trigger] diffstats@[k]) is Some ==> lines
                            < diffstats@[k]->0.insertions + diffstats@[k]->0.deletions
                }
            &&& forall|k: int|
                0 <= k < diffstats@.len() && (#[trigger] diffstats@[k]) is Some ==> lines
                    <= diffstats@[k]->0.insertions + diffstats@[k]->0.deletions
            &&& extra is Some <==> plan.extra is Some && extra_diffstat is Some
            &&& extra is Some ==> {
                &&& version::node(extra->0.from) == version::node(plan.extra->0.from)
                &&& extra->0.to@ == plan.extra->0.to@
                &&& extra->0.diffstat == extra_diffstat->0
            }
        },
{
    let d = delta::deltas(plan.candidates@);
    lemma_smallest(d, diffstats@);
    if let Some((best, extra)) = r {
        let j = choose|j: int| is_first_smallest(d, diffstats@, best@, j);
        assert(d[j] == plan.candidates@[j]@);
        assert(diffstats@[j] == Some(best.diffstat));
    }
}

spec fn is_first_smallest(
    d: Seq<DeltaView>,
    stats: Seq<Option<DiffStat>>,
    best: delta::DiffRecommendationView,
    j: int,
) -> bool {
    &&& 0 <= j < d.len()
    &&& stats[j] == Some(best.diffstat)
    &&& d[j].from == best.from
    &&& d[j].to == best.to
    &&& forall|k: int|
        0 <= k < j && (#[trigger] stats[k]) is Some ==> best.diffstat.lines() < stats[k]->0.lines()
    &&& forall|k: int|
        0 <= k < d.len() && (#[trigger] stats[k]) is Some ==> best.diffstat.lines()
            <= stats[k]->0.lines()
}

proof fn lemma_smallest(d: Seq<DeltaView>, stats: Seq<Option<DiffStat>>)
    ensures
        match delta::smallest(delta::diffed(d, stats)) {
            Some(best) => exists|j: int| is_first_smallest(d, stats, best, j),
            None => forall|j: int| 0 <= j < d.len() ==> (#[trigger] stats[j]) is None,
        },
    decreases d.len(),
{
    if d.len() > 0 {
        let t = d.drop_last();
        let s = delta::diffed(d, stats);
        let rest = delta::diffed(t, stats);
        lemma_smallest(t, stats);
        let n = d.len() - 1;
        if stats[n] is Some {
            assert(s.drop_last() =~= rest);
            if let Some(old_best) = delta::smallest(rest) {
                let j = choose|j: int| is_first_smallest(t, stats, old_best, j);
                if s.last().diffstat.lines() < old_best.diffstat.lines() {
                    assert(is_first_smallest(d, stats, s.last(), n));
                } else {
                    assert(is_first_smallest(d, stats, old_best, j));
                }
            } else {
                assert(is_first_smallest(d, stats, s.last(), n));
            }
        } else if let Some(best) = delta::smallest(rest) {
            let j = choose|j: int| is_first_smallest(t, stats, best, j);
            assert(is_first_smallest(d, stats, best, j));
        }
    }
}

} // verus!
