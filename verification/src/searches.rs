//! What a search for a proof finds.

use vstd::prelude::*;
use crate::audit_graph;
use crate::audit_graph::{EdgeView, SearchFailure};
use crate::chains;
use crate::criteria::CriteriaMapper;
use crate::edges;
use crate::edges::{DeltaEdgeFreshness, DeltaEdgeOrigin, DeltaEdgeOriginView, SearchMode};
use crate::records::{AuditsFile, Store};
use crate::search;
use crate::search::{NodeView, Query};
use crate::version;
use crate::version::{VetVersion, VetVersionView};

verus! {

/// What a search is for: a criterion of a package, given a store.
pub struct Case {
    pub store: Store,
    pub extra: Option<AuditsFile>,
    pub mapper: CriteriaMapper,
    pub name: Seq<char>,
    pub criterion: int,
    pub mode: SearchMode,
}

impl Case {
    /// Whether an edge counts: an entry backs it, and it is for the criterion. When
    /// exemptions are regenerated, exemptions count whatever they are for.
    pub open spec fn counts(self, e: EdgeView) -> bool {
        &&& chains::is_backed(self.store, self.extra, self.mapper, self.name, e)
        &&& e.criteria.has(self.criterion) || (self.mode == SearchMode::RegenerateExemptions
            && e.origin is Exemption)
    }

    /// Whether edges that count lead from one version to another.
    pub open spec fn is_chain(
        self,
        c: Seq<EdgeView>,
        from: Option<VetVersionView>,
        to: Option<VetVersionView>,
    ) -> bool {
        &&& c.len() == 0 ==> from == to
        &&& c.len() > 0 ==> c[0].from == from && c[c.len() - 1].to == to
        &&& forall|k: int| 0 <= k < c.len() ==> self.counts(#[trigger] c[k])
        &&& forall|k: int, j: int|
            0 <= k && j == k + 1 && j < c.len() ==> (#[trigger] c[k]).to == (#[trigger] c[j]).from
    }

    /// Whether some edges that count lead from one version to another.
    pub open spec fn is_linked(
        self,
        from: Option<VetVersionView>,
        to: Option<VetVersionView>,
    ) -> bool {
        exists|c: Seq<EdgeView>| self.is_chain(c, from, to)
    }

    /// Whether an edge relies on nothing that is worse than a place on the list:
    /// stored audits that others may import; other own audits; exemptions that are
    /// preferred; preferred unpublished entries, which are the stored ones if
    /// exemptions are preferred and the fresh ones if not; releases that were just
    /// fetched; audits that were just fetched; exemptions; unpublished entries.
    pub open spec fn is_at_worst(self, e: EdgeView, n: int) -> bool {
        let thrifty = self.mode == SearchMode::PreferExemptions;
        let stored = e.freshness == DeltaEdgeFreshness::Stale;
        match e.origin {
            DeltaEdgeOriginView::StoredLocalAudit { importable: false, .. } => n >= 1,
            DeltaEdgeOriginView::Exemption { .. } => n >= if thrifty {
                2int
            } else {
                6
            },
            DeltaEdgeOriginView::Unpublished { .. } => n >= if thrifty == stored {
                3int
            } else {
                7
            },
            DeltaEdgeOriginView::FreshExemption { .. } => false,
            _ => n >= match e.freshness {
                DeltaEdgeFreshness::Stale => 0int,
                DeltaEdgeFreshness::FreshPublisher => 4,
                DeltaEdgeFreshness::Fresh => 5,
            },
        }
    }

    /// Whether all edges rely on nothing worse than a place on the list.
    pub open spec fn are_at_worst(self, c: Seq<EdgeView>, n: int) -> bool {
        forall|k: int| 0 <= k < c.len() ==> self.is_at_worst(#[trigger] c[k], n)
    }

    spec fn edges(self) -> Seq<EdgeView> {
        audit_graph::store_edges(self.store, self.mapper, self.name, self.extra)
    }

    spec fn query(self, from: Option<VetVersionView>, to: Option<VetVersionView>) -> Query {
        Query {
            edges: |v: Option<VetVersionView>| audit_graph::backward_from(self.edges(), v),
            criteria_idx: self.criterion,
            from,
            to,
            mode: self.mode,
        }
    }
}

/// Whether a path goes over edges, from the last to the first.
pub open spec fn is_path_over(path: Seq<DeltaEdgeOriginView>, c: Seq<EdgeView>) -> bool {
    path.len() == c.len() && forall|k: int|
        0 <= k < c.len() ==> (#[trigger] c[k]).origin == path[c.len() - 1 - k]
}

proof fn lemma_rank(x: Case, e: EdgeView, n: int)
    requires
        0 <= n <= 7,
    ensures
        x.is_at_worst(e, n) <==> search::edge_caveat(e.backward(), x.mode).rank() <= n,
{
}

/// A walk goes over a chain, unless it takes a fresh exemption.
proof fn lemma_walk_chain(x: Case, q: Query, w: Seq<NodeView>, n: int) -> (c: Seq<EdgeView>)
    requires
        x.mapper.wf(),
        q == x.query(q.from, q.to),
        q.is_walk(w),
        0 <= n < w.len(),
        x.mode != SearchMode::RegenerateExemptions || w[n].caveat_level.rank() < 8,
    ensures
        x.is_chain(c, w[n].version, q.from),
        is_path_over(w[n].path, c),
        forall|k: int|
            0 <= k < c.len() ==> search::edge_caveat((#[trigger] c[k]).backward(), x.mode).rank()
                <= w[n].caveat_level.rank(),
    decreases n,
{
    if n == 0 {
        Seq::empty()
    } else {
        let a = w[n - 1];
        let b = w[n];
        assert(q.is_successor(w[n - 1], w[n - 1 + 1]));
        assert(exists|k: int| q.follows(a, b, k));
        let k = choose|k: int| q.follows(a, b, k);
        let s = x.edges();
        assert((q.edges)(a.version) == audit_graph::backward_from(s, a.version));
        let i = audit_graph::lemma_backward_member(s, a.version, k);
        let e = s[i];
        assert(s.contains(e));
        chains::law_edges_are_backed(x.store, x.extra, x.mapper, x.name, e);
        assert(x.counts(e));
        let rest = lemma_walk_chain(x, q, w, n - 1);
        let c = seq![e] + rest;
        assert forall|j: int| 0 <= j < c.len() implies x.counts(#[trigger] c[j])
            && search::edge_caveat(c[j].backward(), x.mode).rank() <= b.caveat_level.rank()
            && c[j].origin == b.path[c.len() - 1 - j] by {
            if j > 0 {
                assert(c[j] == rest[j - 1]);
                assert(b.path[c.len() - 1 - j] == a.path[rest.len() - 1 - (j - 1)]);
            }
        }
        assert forall|k: int, j: int| 0 <= k && j == k + 1 && j < c.len() implies (
        #[trigger] c[k]).to == (#[trigger] c[j]).from by {
            assert(c[j] == rest[j - 1]);
            if k > 0 {
                assert(c[k] == rest[k - 1]);
            } else {
                assert(rest[0].from == a.version);
            }
        }
        if rest.len() > 0 {
            assert(c[c.len() - 1] == rest[rest.len() - 1]);
        }
        c
    }
}

/// A chain can be walked.
proof fn lemma_chain_walk(
    x: Case,
    q: Query,
    c: Seq<EdgeView>,
    from: Option<VetVersionView>,
    n: int,
) -> (w: Seq<NodeView>)
    requires
        x.mapper.wf(),
        q == x.query(q.from, q.to),
        x.is_chain(c, from, q.from),
        0 <= n <= 7,
    ensures
        q.is_walk(w),
        w.last().version == from,
        x.are_at_worst(c, n) ==> w.last().caveat_level.rank() <= n,
        w.last().caveat_level.rank() < 8,
    decreases c.len(),
{
    if c.len() == 0 {
        let w = seq![q.start()];
        assert(q.is_walk(w));
        w
    } else {
        let e = c[0];
        let rest = c.drop_first();
        assert(x.is_chain(rest, e.to, q.from)) by {
            assert forall|k: int| 0 <= k < rest.len() implies x.counts(#[trigger] rest[k]) by {
                assert(rest[k] == c[k + 1]);
            }
            assert forall|k: int, j: int| 0 <= k && j == k + 1 && j < rest.len() implies (
            #[trigger] rest[k]).to == (#[trigger] rest[j]).from by {
                assert(rest[k] == c[k + 1]);
                assert(rest[j] == c[j + 1]);
            }
            if rest.len() > 0 {
                assert(rest[0] == c[1]);
                assert(rest[rest.len() - 1] == c[c.len() - 1]);
            }
        }
        if x.are_at_worst(c, n) {
            assert forall|k: int| 0 <= k < rest.len() implies x.is_at_worst(
                #[trigger] rest[k],
                n,
            ) by {
                assert(rest[k] == c[k + 1]);
            }
        }
        let u = lemma_chain_walk(x, q, rest, e.to, n);
        let s = x.edges();
        assert(x.counts(e));
        chains::law_edges_are_backed(x.store, x.extra, x.mapper, x.name, e);
        let i = choose|i: int| 0 <= i < s.len() && s[i] == e;
        let k = audit_graph::lemma_backward_has(s, i);
        assert((q.edges)(e.to) == audit_graph::backward_from(s, e.to));
        let b = search::extend(u.last(), e.backward(), q.mode);
        assert(q.follows(u.last(), b, k));
        let w = u.push(b);
        assert forall|i: int| 0 <= i < w.len() - 1 implies q.is_successor(
            #[trigger] w[i],
            w[i + 1],
        ) by {
            if i < u.len() - 1 {
                assert(w[i] == u[i] && w[i + 1] == u[i + 1]);
            } else {
                assert(w[i] == u.last());
            }
        }
        assert(w[0] == u[0]);
        lemma_rank(x, e, n);
        assert(q.is_walk(w));
        w
    }
}

/// What a search reaches is linked to where it starts.
proof fn lemma_reach(x: Case, q: Query, v: Option<VetVersionView>)
    requires
        x.mapper.wf(),
        x.mode != SearchMode::RegenerateExemptions,
        q == x.query(q.from, q.to),
    ensures
        q.reachable(v) <==> x.is_linked(v, q.from),
{
    if q.reachable(v) {
        let w = choose|w: Seq<NodeView>| #[trigger] q.is_walk(w) && w.last().version == v;
        let c = lemma_walk_chain(x, q, w, w.len() - 1);
        assert(x.is_chain(c, v, q.from));
    }
    if x.is_linked(v, q.from) {
        let c = choose|c: Seq<EdgeView>| x.is_chain(c, v, q.from);
        let w = lemma_chain_walk(x, q, c, v, 7);
        assert(q.is_walk(w) && w.last().version == v);
    }
}

/// The search for the root succeeds exactly if the version is linked to it.
pub proof fn lemma_root_linked(x: Case, version: VetVersionView)
    requires
        x.mapper.wf(),
        x.mode != SearchMode::RegenerateExemptions,
    ensures
        audit_graph::to_root(
            audit_graph::store_edges(x.store, x.mapper, x.name, x.extra),
            x.criterion,
            version,
            x.mode,
        ).reachable(None) <==> x.is_linked(None, Some(version)),
{
    let q = x.query(Some(version), None);
    let back = audit_graph::to_root(x.edges(), x.criterion, version, x.mode);
    assert(back.edges =~= q.edges);
    lemma_reach(x, q, None);
}

/// Whether a search of the graph of the package for a version can have a result.
pub open spec fn is_found(
    x: Case,
    version: VetVersion,
    r: Result<Vec<DeltaEdgeOrigin>, SearchFailure>,
) -> bool {
    audit_graph::is_search_result(
        audit_graph::store_edges(x.store, x.mapper, x.name, x.extra),
        x.criterion,
        version@,
        x.mode,
        r,
    )
}

/// A proof is found exactly if edges that count lead from the root to the version.
/// Otherwise exactly the versions that are linked to either end are listed, in order.
/// When exemptions are regenerated, a proof is always found.
pub proof fn law_proofs_are_found_for_chains(
    x: Case,
    version: VetVersion,
    r: Result<Vec<DeltaEdgeOrigin>, SearchFailure>,
    v: Option<VetVersionView>,
)
    requires
        x.mapper.wf(),
        is_found(x, version, r),
    ensures
        x.mode == SearchMode::RegenerateExemptions ==> r is Ok,
        x.mode != SearchMode::RegenerateExemptions ==> (r is Ok <==> x.is_linked(
            None,
            Some(version@),
        )),
        r matches Err(f) ==> {
            &&& (exists|j: int|
                0 <= j < f.reachable_from_root@.len() && version::node(
                    #[trigger] f.reachable_from_root@[j],
                ) == v) <==> x.is_linked(None, v)
            &&& (exists|j: int|
                0 <= j < f.reachable_from_target@.len() && version::node(
                    #[trigger] f.reachable_from_target@[j],
                ) == v) <==> x.is_linked(v, Some(version@))
        },
{
    let s = x.edges();
    let back = audit_graph::to_root(s, x.criterion, version@, x.mode);
    let forth = audit_graph::to_target(s, x.criterion, version@, x.mode);
    if x.mode != SearchMode::RegenerateExemptions {
        let q = x.query(Some(version@), None);
        assert(back.edges =~= q.edges);
        lemma_reach(x, q, None);
        lemma_reach(x, q, v);
        let on = x.query(v, None);
        lemma_reach(x, on, None);
        assert(forth.reachable(v) <==> on.reachable(None)) by {
            if forth.reachable(v) {
                let w = choose|w: Seq<NodeView>| #[trigger]
                    forth.is_walk(w) && w.last().version == v;
                audit_graph::lemma_turn_back(s, forth, on, w, 0);
            }
            if on.reachable(None) {
                let w = choose|w: Seq<NodeView>| #[trigger]
                    on.is_walk(w) && w.last().version == None::<VetVersionView>;
                audit_graph::lemma_turn_forth(s, on, forth, w, 0);
            }
        }
        if let Err(f) = r {
            assert(forth.reachable(v) == search::version_listed(f.reachable_from_root@, v));
            assert(back.reachable(v) == search::version_listed(f.reachable_from_target@, v));
        }
    }
}

/// A proof that is found goes over edges that count, from the root to the version,
/// and relies on nothing worse than any other such proof.
pub proof fn law_found_proofs_rely_on_the_best(
    x: Case,
    version: VetVersion,
    path: Vec<DeltaEdgeOrigin>,
    other: Seq<EdgeView>,
    n: int,
)
    requires
        x.mapper.wf(),
        is_found(x, version, Ok::<Vec<DeltaEdgeOrigin>, SearchFailure>(path)),
        x.is_chain(other, None, Some(version@)),
        0 <= n <= 7,
    ensures
        exists|c: Seq<EdgeView>| #[trigger]
            x.is_chain(c, None, Some(version@)) && is_path_over(edges::origins(path@), c) && (
            x.are_at_worst(other, n) ==> x.are_at_worst(c, n)),
{
    let q = x.query(Some(version@), None);
    let back = audit_graph::to_root(x.edges(), x.criterion, version@, x.mode);
    assert(back.edges =~= q.edges);
    assert(back == q);
    let t = choose|t: Seq<NodeView>| #[trigger]
        q.finds(t) && t.last().path == edges::origins(path@);
    let w = search::lemma_trace_walk(q, t, t.len() - 1);
    let u = lemma_chain_walk(x, q, other, None, n);
    search::law_found_path_has_least_caveats(q, t, u);
    let c = lemma_walk_chain(x, q, w, w.len() - 1);
    assert(x.is_chain(c, None, Some(version@)));
    if x.are_at_worst(other, n) {
        assert forall|k: int| 0 <= k < c.len() implies x.is_at_worst(#[trigger] c[k], n) by {
            lemma_rank(x, c[k], n);
        }
    }
}

/// A proof that is found consists of edges that count, and of a fresh exemption at
/// its end if exemptions are regenerated and no such edges lead from the root to the
/// version.
pub proof fn law_fresh_exemptions_are_a_last_resort(
    x: Case,
    version: VetVersion,
    path: Vec<DeltaEdgeOrigin>,
)
    requires
        x.mapper.wf(),
        is_found(x, version, Ok::<Vec<DeltaEdgeOrigin>, SearchFailure>(path)),
    ensures
        (exists|k: int|
            0 <= k < path@.len() && (#[trigger] path@[k]) is FreshExemption) <==> !x.is_linked(
            None,
            Some(version@),
        ),
{
    let origins = edges::origins(path@);
    let q = x.query(Some(version@), None);
    let back = audit_graph::to_root(x.edges(), x.criterion, version@, x.mode);
    assert(back.edges =~= q.edges);
    assert(back == q);
    if x.is_linked(None, Some(version@)) {
        let other = choose|c: Seq<EdgeView>| x.is_chain(c, None, Some(version@));
        law_found_proofs_rely_on_the_best(x, version, path, other, 7);
        let c = choose|c: Seq<EdgeView>| #[trigger]
            x.is_chain(c, None, Some(version@)) && is_path_over(origins, c);
        if exists|k: int| 0 <= k < path@.len() && (#[trigger] path@[k]) is FreshExemption {
            let k = choose|k: int| 0 <= k < path@.len() && (#[trigger] path@[k]) is FreshExemption;
            assert(origins[k] is FreshExemption);
            let j = c.len() - 1 - k;
            assert(c[j].origin == origins[c.len() - 1 - j]);
            assert(x.counts(c[j]));
        }
    } else {
        let t = choose|t: Seq<NodeView>| #[trigger] q.finds(t) && t.last().path == origins;
        let w = search::lemma_trace_walk(q, t, t.len() - 1);
        if x.mode != SearchMode::RegenerateExemptions || w.last().caveat_level.rank() < 8 {
            let c = lemma_walk_chain(x, q, w, w.len() - 1);
            assert(x.is_chain(c, None, Some(version@)));
        } else {
            let k = lemma_takes_exemption(x, q, w, w.len() - 1);
            assert(path@[k] is FreshExemption);
        }
    }
}

/// A walk with the greatest caveat takes a fresh exemption.
proof fn lemma_takes_exemption(x: Case, q: Query, w: Seq<NodeView>, n: int) -> (k: int)
    requires
        x.mapper.wf(),
        q == x.query(q.from, q.to),
        q.is_walk(w),
        0 <= n < w.len(),
        w[n].caveat_level.rank() == 8,
    ensures
        0 <= k < w[n].path.len(),
        w[n].path[k] is FreshExemption,
    decreases n,
{
    let a = w[n - 1];
    let b = w[n];
    assert(n > 0);
    assert(q.is_successor(w[n - 1], w[n - 1 + 1]));
    if exists|k: int| q.follows(a, b, k) {
        let k = choose|k: int| q.follows(a, b, k);
        let s = x.edges();
        assert((q.edges)(a.version) == audit_graph::backward_from(s, a.version));
        let i = audit_graph::lemma_backward_member(s, a.version, k);
        let e = s[i];
        assert(s.contains(e));
        chains::law_edges_are_backed(x.store, x.extra, x.mapper, x.name, e);
        lemma_rank(x, e, 7);
        assert(a.caveat_level.rank() == 8);
        let j = lemma_takes_exemption(x, q, w, n - 1);
        assert(b.path[j] == a.path[j]);
        j
    } else {
        b.path.len() - 1
    }
}

} // verus!
