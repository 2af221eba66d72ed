//! The search for a path of audits between two versions.

use vstd::prelude::*;
use crate::directed;
use crate::directed::DirectedAuditGraph;
use crate::edges;
use crate::edges::{
    clone_origins, DeltaEdge, DeltaEdgeFreshness, DeltaEdgeOrigin, DeltaEdgeOriginView,
    DeltaEdgeView, SearchMode,
};
use crate::order;
use crate::order::{key_le, key_of, sort, Keyed};
use crate::version;
use crate::version::{clone_node, node_eq, VetVersion, VetVersionView};

verus! {

/// What one would rather not rely on, from the least to the most.
#[derive(Debug, Copy, Clone, Eq, PartialEq, Structural)]
pub enum CaveatLevel {
    NoCaveat,
    NonImportableAudit,
    PreferredExemption,
    PreferredUnpublished,
    FreshPublisher,
    FreshImport,
    Exemption,
    Unpublished,
    FreshExemption,
}

impl CaveatLevel {
    /// The position of the level, from the least caveat to the greatest.
    pub open spec fn rank(self) -> u64 {
        match self {
            CaveatLevel::NoCaveat => 0,
            CaveatLevel::NonImportableAudit => 1,
            CaveatLevel::PreferredExemption => 2,
            CaveatLevel::PreferredUnpublished => 3,
            CaveatLevel::FreshPublisher => 4,
            CaveatLevel::FreshImport => 5,
            CaveatLevel::Exemption => 6,
            CaveatLevel::Unpublished => 7,
            CaveatLevel::FreshExemption => 8,
        }
    }

    /// The greater of two levels.
    pub open spec fn spec_max(self, other: CaveatLevel) -> CaveatLevel {
        if self.rank() >= other.rank() {
            self
        } else {
            other
        }
    }

    fn to_rank(self) -> (r: u64)
        ensures
            r == self.rank(),
    {
        match self {
            CaveatLevel::NoCaveat => 0,
            CaveatLevel::NonImportableAudit => 1,
            CaveatLevel::PreferredExemption => 2,
            CaveatLevel::PreferredUnpublished => 3,
            CaveatLevel::FreshPublisher => 4,
            CaveatLevel::FreshImport => 5,
            CaveatLevel::Exemption => 6,
            CaveatLevel::Unpublished => 7,
            CaveatLevel::FreshExemption => 8,
        }
    }

    fn max_level(self, other: CaveatLevel) -> (r: CaveatLevel)
        ensures
            r == self.spec_max(other),
    {
        if self.to_rank() >= other.to_rank() {
            self
        } else {
            other
        }
    }
}

/// The caveats that an edge brings.
pub open spec fn edge_caveat(edge: DeltaEdgeView, mode: SearchMode) -> CaveatLevel {
    let is_fresh = edge.freshness != DeltaEdgeFreshness::Stale;
    let by_freshness = match edge.freshness {
        DeltaEdgeFreshness::Stale => CaveatLevel::NoCaveat,
        DeltaEdgeFreshness::FreshPublisher => CaveatLevel::FreshPublisher,
        DeltaEdgeFreshness::Fresh => CaveatLevel::FreshImport,
    };
    match edge.origin {
        DeltaEdgeOriginView::StoredLocalAudit { importable, .. } => if importable {
            by_freshness
        } else {
            CaveatLevel::NonImportableAudit
        },
        DeltaEdgeOriginView::Exemption { .. } => if mode == SearchMode::PreferExemptions {
            CaveatLevel::PreferredExemption
        } else {
            CaveatLevel::Exemption
        },
        DeltaEdgeOriginView::FreshExemption { .. } => CaveatLevel::FreshExemption,
        DeltaEdgeOriginView::Unpublished { .. } => {
            // When preferring exemptions, prefer what is stored already;
            // otherwise, prefer fresh entries to avoid outdated versions.
            if (mode == SearchMode::PreferExemptions) != is_fresh {
                CaveatLevel::PreferredUnpublished
            } else {
                CaveatLevel::Unpublished
            }
        },
        _ => by_freshness,
    }
}

/// Whether an edge counts for a criterion. When exemptions are regenerated, an
/// exemption counts for every criterion.
pub open spec fn usable(edge: DeltaEdgeView, criteria_idx: int, mode: SearchMode) -> bool {
    ||| mode == SearchMode::RegenerateExemptions && edge.origin is Exemption
    ||| edge.criteria.has(criteria_idx)
}

/// A version that was reached, and how.
#[verifier::ext_equal]
pub struct NodeView {
    pub version: Option<VetVersionView>,
    /// The version that the last edge leaves.
    pub origin_version: Option<VetVersionView>,
    /// The origins of the edges, from the start of the search on.
    pub path: Seq<DeltaEdgeOriginView>,
    /// The greatest caveat on the path.
    pub caveat_level: CaveatLevel,
}

/// What to search for: a path between two versions, all of whose edges count
/// for a criterion.
pub struct Query {
    /// The edges that leave a version.
    pub edges: spec_fn(Option<VetVersionView>) -> Seq<DeltaEdgeView>,
    pub criteria_idx: int,
    pub from: Option<VetVersionView>,
    pub to: Option<VetVersionView>,
    pub mode: SearchMode,
}

/// The edges of a graph, by the version that they leave.
pub open spec fn graph_edges(graph: DirectedAuditGraph) -> spec_fn(Option<VetVersionView>) -> Seq<
    DeltaEdgeView,
> {
    |v: Option<VetVersionView>| graph.edges_from(v)
}

/// The version that breaks ties between nodes that were reached through an
/// exemption.
pub open spec fn exemption_origin(n: NodeView) -> Option<VetVersionView> {
    match n.caveat_level {
        CaveatLevel::PreferredExemption => n.origin_version,
        CaveatLevel::Exemption => n.origin_version,
        CaveatLevel::FreshExemption => n.origin_version,
        _ => None,
    }
}

/// The key of the last origin of a path, if there is one.
pub open spec fn last_origin_key(path: Seq<DeltaEdgeOriginView>) -> Seq<u64> {
    if path.len() == 0 {
        seq![0u64]
    } else {
        seq![1u64] + edges::origin_key(path.last())
    }
}

/// The key by which the search picks the next node: the least caveat, then the
/// lowest version, the smallest exemption, the shortest path and the most local
/// audit.
#[verifier::opaque]
pub open spec fn search_key(n: NodeView) -> Seq<u64> {
    seq![n.caveat_level.rank()] + version::node_key(n.version) + version::node_key(
        exemption_origin(n),
    ) + seq![n.path.len() as u64] + last_origin_key(n.path)
}

/// The node reached from `n` over an edge.
pub open spec fn extend(n: NodeView, edge: DeltaEdgeView, mode: SearchMode) -> NodeView {
    NodeView {
        version: edge.version,
        origin_version: n.version,
        path: n.path.push(edge.origin),
        caveat_level: n.caveat_level.spec_max(edge_caveat(edge, mode)),
    }
}

/// The root, reached from `n` by a fresh exemption.
pub open spec fn exempt(n: NodeView) -> NodeView {
    NodeView {
        version: None,
        origin_version: n.version,
        path: n.path.push(DeltaEdgeOriginView::FreshExemption { version: n.version->0 }),
        caveat_level: n.caveat_level.spec_max(CaveatLevel::FreshExemption),
    }
}

impl Query {
    /// The node at which the search starts.
    pub open spec fn start(self) -> NodeView {
        NodeView {
            version: self.from,
            origin_version: self.from,
            path: Seq::empty(),
            caveat_level: CaveatLevel::NoCaveat,
        }
    }

    /// Whether `b` is reached from `a` over the edge number `k`.
    pub open spec fn follows(self, a: NodeView, b: NodeView, k: int) -> bool {
        let out = (self.edges)(a.version);
        0 <= k < out.len() && usable(out[k], self.criteria_idx, self.mode) && b == extend(
            a,
            out[k],
            self.mode,
        )
    }

    /// Whether `b` is one step from `a`: over an edge, or by a fresh exemption
    /// if exemptions are regenerated.
    pub open spec fn is_successor(self, a: NodeView, b: NodeView) -> bool {
        ||| exists|k: int| self.follows(a, b, k)
        ||| self.mode == SearchMode::RegenerateExemptions && a.version is Some && b == exempt(a)
    }

    /// Whether each node of `w` is one step from the one before it, from the
    /// start on.
    pub open spec fn is_walk(self, w: Seq<NodeView>) -> bool {
        &&& w.len() > 0
        &&& w[0] == self.start()
        &&& forall|i: int| 0 <= i < w.len() - 1 ==> self.is_successor(#[trigger] w[i], w[i + 1])
    }

    /// Whether the search can reach `v`.
    pub open spec fn reachable(self, v: Option<VetVersionView>) -> bool {
        exists|w: Seq<NodeView>| #[trigger] self.is_walk(w) && w.last().version == v
    }

    /// Whether `b` is one step from a node of `t`.
    pub open spec fn extends(self, t: Seq<NodeView>, b: NodeView) -> bool {
        exists|j: int| 0 <= j < t.len() && self.is_successor(#[trigger] t[j], b)
    }

    /// Whether `b` is one step from a node of `t`, and goes to a version that
    /// `t` has not visited.
    pub open spec fn is_candidate(self, t: Seq<NodeView>, b: NodeView) -> bool {
        self.extends(t, b) && !visits(t, b.version)
    }

    /// Whether `n` is a candidate with the least key.
    pub open spec fn is_next(self, t: Seq<NodeView>, n: NodeView) -> bool {
        &&& self.is_candidate(t, n)
        &&& forall|b: NodeView| #[trigger]
            self.is_candidate(t, b) ==> order::lex_le(search_key(n), search_key(b))
    }

    /// Whether `t` lists nodes in the order in which a best-first search visits
    /// them: each is a candidate with the least key, and no version is visited
    /// twice.
    pub open spec fn is_trace(self, t: Seq<NodeView>) -> bool {
        &&& t.len() > 0
        &&& t[0] == self.start()
        &&& forall|i: int| 0 < i < t.len() ==> self.is_next(t.take(i), #[trigger] t[i])
        &&& forall|i: int| 0 <= i < t.len() - 1 ==> (#[trigger] t[i]).version != self.to
    }

    /// Whether the search visits the nodes `t` and ends at the target.
    pub open spec fn finds(self, t: Seq<NodeView>) -> bool {
        self.is_trace(t) && t.last().version == self.to
    }

    /// Whether the search can end with `path`.
    pub open spec fn can_find(self, path: Seq<DeltaEdgeOriginView>) -> bool {
        exists|t: Seq<NodeView>| #[trigger] self.finds(t) && t.last().path == path
    }
}

/// Whether a node of `t` has the version `v`.
pub open spec fn visits(t: Seq<NodeView>, v: Option<VetVersionView>) -> bool {
    exists|j: int| 0 <= j < t.len() && (#[trigger] t[j]).version == v
}

/// Whether `s` lists exactly the versions that `q` can reach, in order and each
/// once.
pub open spec fn lists_reachable(s: Seq<Option<VetVersion>>, q: Query) -> bool {
    &&& order::is_sorted(s)
    &&& forall|i: int, j: int|
        0 <= i < j < s.len() ==> version::node(#[trigger] s[i]) != version::node(#[trigger] s[j])
    &&& forall|v: Option<VetVersionView>| #[trigger] q.reachable(v) == version_listed(s, v)
}

/// Whether a list of versions holds `v`.
pub open spec fn version_listed(s: Seq<Option<VetVersion>>, v: Option<VetVersionView>) -> bool {
    exists|i: int| 0 <= i < s.len() && version::node(#[trigger] s[i]) == v
}

/// A search reaches the version that it starts from.
pub proof fn lemma_start_reachable(q: Query)
    ensures
        q.reachable(q.from),
{
    let w = seq![q.start()];
    assert(q.is_walk(w) && w.last().version == q.from);
}

/// A step from one node can be made from every other node of the same version,
/// and leads to the same version; fewer caveats before the step mean no more
/// caveats after it.
proof fn lemma_transfer(q: Query, a: NodeView, b: NodeView, other: NodeView) -> (r: NodeView)
    requires
        q.is_successor(a, b),
        a.version == other.version,
    ensures
        q.is_successor(other, r),
        r.version == b.version,
        other.caveat_level.rank() <= a.caveat_level.rank() ==> r.caveat_level.rank()
            <= b.caveat_level.rank(),
        a.caveat_level.rank() <= b.caveat_level.rank(),
{
    if exists|k: int| q.follows(a, b, k) {
        let k = choose|k: int| q.follows(a, b, k);
        let r = extend(other, (q.edges)(a.version)[k], q.mode);
        assert(q.follows(other, r, k));
        r
    } else {
        exempt(other)
    }
}

/// Every node of a trace is the end of a walk.
pub proof fn lemma_trace_walk(q: Query, t: Seq<NodeView>, i: int) -> (w: Seq<NodeView>)
    requires
        q.is_trace(t),
        0 <= i < t.len(),
    ensures
        q.is_walk(w),
        w.last() == t[i],
    decreases i,
{
    if i == 0 {
        seq![t[0]]
    } else {
        assert(q.is_next(t.take(i), t[i]));
        let p = t.take(i);
        let j = choose|j: int| 0 <= j < p.len() && q.is_successor(#[trigger] p[j], t[i]);
        let w = lemma_trace_walk(q, t, j);
        let r = w.push(t[i]);
        assert forall|m: int| 0 <= m < r.len() - 1 implies q.is_successor(#[trigger] r[m], r[m + 1]) by {
            if m < w.len() - 1 {
                assert(r[m] == w[m] && r[m + 1] == w[m + 1]);
            } else {
                assert(r[m] == w.last());
            }
        }
        r
    }
}

/// A prefix of a walk is a walk.
proof fn lemma_walk_prefix(q: Query, w: Seq<NodeView>, n: int)
    requires
        q.is_walk(w),
        0 < n <= w.len(),
    ensures
        q.is_walk(w.take(n)),
{
    let p = w.take(n);
    assert forall|i: int| 0 <= i < p.len() - 1 implies q.is_successor(#[trigger] p[i], p[i + 1]) by {
        assert(p[i] == w[i] && p[i + 1] == w[i + 1]);
    }
}

/// If a search has nothing more to visit, it has visited every walk.
proof fn lemma_exhausted_walk(q: Query, t: Seq<NodeView>, w: Seq<NodeView>, n: int)
    requires
        q.is_trace(t),
        forall|b: NodeView| !(#[trigger] q.is_candidate(t, b)),
        q.is_walk(w),
        0 <= n < w.len(),
    ensures
        visits(t, w[n].version),
    decreases n,
{
    if n == 0 {
        assert(t[0].version == w[0].version);
    } else {
        lemma_exhausted_walk(q, t, w, n - 1);
        let j = choose|j: int| 0 <= j < t.len() && (#[trigger] t[j]).version == w[n - 1].version;
        assert(q.is_successor(w[n - 1], w[n]));
        let b = lemma_transfer(q, w[n - 1], w[n], t[j]);
        assert(q.extends(t, b));
        assert(!q.is_candidate(t, b));
    }
}

/// A search that has nothing more to visit has visited exactly what it can
/// reach.
pub proof fn lemma_exhausted_reaches_all(q: Query, t: Seq<NodeView>)
    requires
        q.is_trace(t),
        forall|b: NodeView| !(#[trigger] q.is_candidate(t, b)),
    ensures
        forall|v: Option<VetVersionView>| #[trigger] q.reachable(v) == visits(t, v),
{
    assert forall|v: Option<VetVersionView>| #[trigger] q.reachable(v) == visits(t, v) by {
        if q.reachable(v) {
            let w = choose|w: Seq<NodeView>| #[trigger] q.is_walk(w) && w.last().version == v;
            lemma_exhausted_walk(q, t, w, w.len() - 1);
        }
        if visits(t, v) {
            let j = choose|j: int| 0 <= j < t.len() && (#[trigger] t[j]).version == v;
            let w = lemma_trace_walk(q, t, j);
            assert(q.is_walk(w) && w.last().version == v);
        }
    }
}

/// The first node of `w` from `n` on that `t` does not visit.
proof fn lemma_first_unvisited(t: Seq<NodeView>, w: Seq<NodeView>, n: int) -> (i: int)
    requires
        0 <= n < w.len(),
        visits(t, w[n].version),
        !visits(t, w.last().version),
    ensures
        n < i < w.len(),
        visits(t, w[i - 1].version),
        !visits(t, w[i].version),
    decreases w.len() - n,
{
    if n + 1 < w.len() && visits(t, w[n + 1].version) {
        lemma_first_unvisited(t, w, n + 1)
    } else {
        n + 1
    }
}

proof fn lemma_walk_caveat(q: Query, w: Seq<NodeView>, a: int, b: int)
    requires
        q.is_walk(w),
        0 <= a <= b < w.len(),
    ensures
        w[a].caveat_level.rank() <= w[b].caveat_level.rank(),
    decreases b - a,
{
    if a < b {
        lemma_walk_caveat(q, w, a, b - 1);
        assert(q.is_successor(w[b - 1], w[b]));
        let r = lemma_transfer(q, w[b - 1], w[b], w[b - 1]);
    }
}

/// A visited node has the least caveats with which its version can be reached.
proof fn lemma_trace_least_caveat(q: Query, t: Seq<NodeView>, k: int, w: Seq<NodeView>)
    requires
        q.is_trace(t),
        0 <= k < t.len(),
        q.is_walk(w),
        w.last().version == t[k].version,
    ensures
        t[k].caveat_level.rank() <= w.last().caveat_level.rank(),
    decreases k,
{
    if k > 0 {
        let p = t.take(k);
        assert(q.is_next(p, t[k]));
        assert(p[0].version == w[0].version);
        assert(visits(p, w[0].version));
        let i = lemma_first_unvisited(p, w, 0);
        let j = choose|j: int| 0 <= j < p.len() && (#[trigger] p[j]).version == w[i - 1].version;
        lemma_walk_prefix(q, w, i);
        assert(w.take(i).last() == w[i - 1]);
        assert(p[j] == t[j]);
        lemma_trace_least_caveat(q, t, j, w.take(i));
        assert(q.is_successor(w[i - 1], w[i]));
        let b = lemma_transfer(q, w[i - 1], w[i], t[j]);
        assert(q.is_successor(p[j], b));
        assert(q.extends(p, b));
        assert(q.is_candidate(p, b));
        assert(order::lex_le(search_key(t[k]), search_key(b)));
        reveal(search_key);
        assert(search_key(t[k])[0] == t[k].caveat_level.rank());
        assert(search_key(b)[0] == b.caveat_level.rank());
        lemma_walk_caveat(q, w, i, w.len() - 1);
    }
}

/// The path that a search finds has the least caveats: every other way to reach
/// the target relies on caveats that are at least as great.
pub proof fn law_found_path_has_least_caveats(q: Query, t: Seq<NodeView>, w: Seq<NodeView>)
    requires
        q.finds(t),
        q.is_walk(w),
        w.last().version == q.to,
    ensures
        t.last().caveat_level.rank() <= w.last().caveat_level.rank(),
{
    lemma_trace_least_caveat(q, t, t.len() - 1, w);
}

/// A path that a search finds leads from the start to the target: it consists
/// of the origins of the edges of a walk.
pub proof fn law_found_path_is_a_walk(q: Query, path: Seq<DeltaEdgeOriginView>)
    requires
        q.can_find(path),
    ensures
        exists|w: Seq<NodeView>| #[trigger]
            q.is_walk(w) && w.last().version == q.to && w.last().path == path,
{
    let t = choose|t: Seq<NodeView>| #[trigger] q.finds(t) && t.last().path == path;
    let w = lemma_trace_walk(q, t, t.len() - 1);
    assert(q.is_walk(w) && w.last().version == q.to && w.last().path == path);
}

/// Of the ways to the same version that are alike otherwise, a search takes one
/// whose last audit is the most local.
pub proof fn law_more_local_audits_are_preferred(
    q: Query,
    t: Seq<NodeView>,
    n: NodeView,
    b: NodeView,
)
    requires
        q.is_next(t, n),
        q.is_candidate(t, b),
        n.version == b.version,
        n.caveat_level == b.caveat_level,
        n.origin_version == b.origin_version,
        n.path.len() == b.path.len(),
        n.path.len() > 0,
    ensures
        order::lex_le(edges::origin_key(n.path.last()), edges::origin_key(b.path.last())),
{
    reveal(search_key);
    assert(order::lex_le(search_key(n), search_key(b)));
    let start = seq![n.caveat_level.rank()] + version::node_key(n.version) + version::node_key(
        exemption_origin(n),
    ) + seq![n.path.len() as u64];
    order::lemma_lex_prefix(start, last_origin_key(n.path), last_origin_key(b.path));
    order::lemma_lex_prefix(
        seq![1u64],
        edges::origin_key(n.path.last()),
        edges::origin_key(b.path.last()),
    );
}

/// Own wildcard audits are preferred over imported ones.
pub proof fn law_own_wildcard_audits_are_preferred(
    q: Query,
    t: Seq<NodeView>,
    n: NodeView,
    b: NodeView,
)
    requires
        q.is_next(t, n),
        q.is_candidate(t, b),
        n.version == b.version,
        n.caveat_level == b.caveat_level,
        n.origin_version == b.origin_version,
        n.path.len() == b.path.len(),
        n.path.len() > 0,
        b.path.last() matches DeltaEdgeOriginView::WildcardAudit { import_index, .. }
            && import_index is None,
    ensures
        !(n.path.last() matches DeltaEdgeOriginView::WildcardAudit { import_index, .. }
            && import_index is Some),
{
    law_more_local_audits_are_preferred(q, t, n, b);
    if let DeltaEdgeOriginView::WildcardAudit {
        import_index: Some(i),
        audit_index,
        publisher_index,
    } = n.path.last() {
        let x = edges::origin_key(n.path.last());
        let y = edges::origin_key(b.path.last());
        assert(x[0] == 2 && y[0] == 2);
        assert(x.drop_first()[0] == 1);
        assert(y.drop_first()[0] == 0);
        assert(!order::lex_le(x.drop_first(), y.drop_first()));
    }
}

/// No search that regenerates exemptions fails: the root is always one fresh
/// exemption away.
pub proof fn law_regenerating_reaches_root(q: Query)
    requires
        q.mode == SearchMode::RegenerateExemptions,
        q.from is Some,
    ensures
        q.reachable(None),
{
    let w = seq![q.start(), exempt(q.start())];
    assert(q.is_successor(w[0], w[1]));
    assert(q.is_walk(w) && w.last().version is None);
}

/// The versions that a search may visit.
spec fn universe(graph: DirectedAuditGraph, q: Query) -> Seq<Option<VetVersionView>> {
    directed::group_targets(graph.groups@).push(q.from).push(None)
}

proof fn lemma_step_in_universe(graph: DirectedAuditGraph, q: Query, a: NodeView, b: NodeView)
    requires
        q.edges == graph_edges(graph),
        q.is_successor(a, b),
    ensures
        universe(graph, q).contains(b.version),
{
    let u = universe(graph, q);
    let g = directed::group_targets(graph.groups@);
    if exists|k: int| q.follows(a, b, k) {
        let k = choose|k: int| q.follows(a, b, k);
        directed::lemma_edge_target(graph.groups@, a.version, k);
        let m = choose|m: int| 0 <= m < g.len() && g[m] == b.version;
        assert(u[m] == b.version);
    } else {
        assert(u[u.len() - 1] == b.version);
    }
}

proof fn lemma_trace_bound(graph: DirectedAuditGraph, q: Query, t: Seq<NodeView>)
    requires
        q.edges == graph_edges(graph),
        q.is_trace(t),
    ensures
        t.len() <= universe(graph, q).len(),
{
    let u = universe(graph, q);
    let vs = t.map_values(|n: NodeView| n.version);
    assert forall|i: int| 0 <= i < vs.len() implies u.contains(#[trigger] vs[i]) by {
        if i == 0 {
            assert(u[u.len() - 2] == q.from);
        } else {
            let p = t.take(i);
            assert(q.is_next(p, t[i]));
            let j = choose|j: int| 0 <= j < p.len() && q.is_successor(#[trigger] p[j], t[i]);
            lemma_step_in_universe(graph, q, p[j], t[i]);
        }
    }
    assert(vs.no_duplicates()) by {
        assert forall|i: int, j: int| 0 <= i < j < vs.len() implies vs[i] != vs[j] by {
            let p = t.take(j);
            assert(q.is_next(p, t[j]));
            assert(p[i].version == vs[i]);
        }
    }
    vs.unique_seq_to_set();
    u.lemma_cardinality_of_set();
    assert(vs.to_set().subset_of(u.to_set())) by {
        assert forall|x: Option<VetVersionView>| vs.to_set().contains(x) implies u.to_set().contains(x) by {
            let i = choose|i: int| 0 <= i < vs.len() && vs[i] == x;
            assert(u.contains(vs[i]));
        }
    }
    vstd::set_lib::lemma_len_subset(vs.to_set(), u.to_set());
}

struct Node {
    version: Option<VetVersion>,
    origin_version: Option<VetVersion>,
    path: Vec<DeltaEdgeOrigin>,
    caveat_level: CaveatLevel,
}

impl View for Node {
    type V = NodeView;

    closed spec fn view(&self) -> NodeView {
        NodeView {
            version: version::node(self.version),
            origin_version: version::node(self.origin_version),
            path: edges::origins(self.path@),
            caveat_level: self.caveat_level,
        }
    }
}

impl Keyed for Node {
    closed spec fn sort_key(&self) -> Seq<u64> {
        search_key(self@)
    }

    fn push_key(&self, out: &mut Vec<u64>) {
        let ghost start = out@;
        let ghost a = seq![self.caveat_level.rank()];
        let ghost b = version::node_key(self@.version);
        let ghost c = version::node_key(exemption_origin(self@));
        let ghost d = seq![self@.path.len() as u64];
        let ghost e = last_origin_key(self@.path);
        out.push(self.caveat_level.to_rank());
        assert(out@ =~= start + a);
        self.version.push_key(out);
        assert(out@ == start + a + b);
        push_exemption_origin(self, out);
        assert(out@ == start + a + b + c);
        let n: usize = self.path.len();
        out.push(n as u64);
        assert(out@ =~= start + a + b + c + d);
        push_last_origin(&self.path, out);
        proof {
            lemma_assoc(start, a, b, c, d, e);
            reveal(search_key);
            assert(self.sort_key() == search_key(self@));
        }
    }
}

proof fn lemma_assoc(
    s: Seq<u64>,
    a: Seq<u64>,
    b: Seq<u64>,
    c: Seq<u64>,
    d: Seq<u64>,
    e: Seq<u64>,
)
    ensures
        s + (a + b + c + d + e) == s + a + b + c + d + e,
{
    assert(s + (a + b + c + d + e) =~= s + a + b + c + d + e);
}

fn push_exemption_origin(n: &Node, out: &mut Vec<u64>)
    ensures
        final(out)@ == old(out)@ + version::node_key(exemption_origin(n@)),
{
    let ghost start = out@;
    match n.caveat_level {
        CaveatLevel::PreferredExemption | CaveatLevel::Exemption | CaveatLevel::FreshExemption => {
            n.origin_version.push_key(out);
        },
        _ => {
            out.push(0);
            assert(out@ =~= start + version::node_key(None));
        },
    }
}

fn push_last_origin(path: &Vec<DeltaEdgeOrigin>, out: &mut Vec<u64>)
    ensures
        final(out)@ == old(out)@ + last_origin_key(edges::origins(path@)),
{
    let ghost start = out@;
    let n: usize = path.len();
    if n == 0 {
        out.push(0);
    } else {
        out.push(1);
        path[n - 1].push_key(out);
        assert(edges::origins(path@).last() == path@[n - 1]@);
    }
    assert(out@ =~= start + last_origin_key(edges::origins(path@)));
}

fn caveat_of(edge: &DeltaEdge, mode: SearchMode) -> (r: CaveatLevel)
    ensures
        r == edge_caveat(edge@, mode),
{
    let by_freshness: CaveatLevel = match edge.freshness {
        DeltaEdgeFreshness::Stale => CaveatLevel::NoCaveat,
        DeltaEdgeFreshness::FreshPublisher => CaveatLevel::FreshPublisher,
        DeltaEdgeFreshness::Fresh => CaveatLevel::FreshImport,
    };
    match &edge.origin {
        DeltaEdgeOrigin::StoredLocalAudit { audit_index: _, importable } => if *importable {
            by_freshness
        } else {
            CaveatLevel::NonImportableAudit
        },
        DeltaEdgeOrigin::Exemption { exemption_index: _ } => if mode
            == SearchMode::PreferExemptions {
            CaveatLevel::PreferredExemption
        } else {
            CaveatLevel::Exemption
        },
        DeltaEdgeOrigin::FreshExemption { version: _ } => CaveatLevel::FreshExemption,
        DeltaEdgeOrigin::Unpublished { unpublished_index: _ } => if (mode
            == SearchMode::PreferExemptions) != edge.freshness.is_fresh() {
            CaveatLevel::PreferredUnpublished
        } else {
            CaveatLevel::Unpublished
        },
        _ => by_freshness,
    }
}

/// The position of a node with the least key.
fn best(queue: &Vec<Node>) -> (r: usize)
    requires
        queue@.len() > 0,
    ensures
        r < queue@.len(),
        forall|k: int|
            0 <= k < queue@.len() ==> order::lex_le(
                search_key(queue@[r as int]@),
                search_key((#[trigger] queue@[k])@),
            ),
{
    let mut r: usize = 0;
    let mut best_key: Vec<u64> = key_of(&queue[0]);
    let mut i: usize = 1;
    proof {
        order::lemma_lex_refl(best_key@);
    }
    while i < queue.len()
        invariant
            r < queue@.len(),
            0 < i <= queue@.len(),
            best_key@ == search_key(queue@[r as int]@),
            forall|k: int|
                0 <= k < i ==> order::lex_le(best_key@, search_key((#[trigger] queue@[k])@)),
        decreases queue@.len() - i,
    {
        let key: Vec<u64> = key_of(&queue[i]);
        let ghost old_key = best_key@;
        if !key_le(&best_key, &key) {
            proof {
                order::lemma_lex_total(key@, old_key);
                order::lemma_lex_refl(key@);
                assert forall|k: int| 0 <= k < i + 1 implies order::lex_le(
                    key@,
                    search_key((#[trigger] queue@[k])@),
                ) by {
                    if k < i {
                        order::lemma_lex_trans(key@, old_key, search_key(queue@[k]@));
                    }
                }
            }
            best_key = key;
            r = i;
        }
        i = i + 1;
    }
    r
}

spec fn queued(queue: Seq<Node>, b: NodeView) -> bool {
    exists|m: int| 0 <= m < queue.len() && (#[trigger] queue[m])@ == b
}

fn is_visited(visited: &Vec<Option<VetVersion>>, v: &Option<VetVersion>) -> (r: bool)
    ensures
        r == version_listed(visited@, version::node(*v)),
{
    let mut i: usize = 0;
    while i < visited.len()
        invariant
            i <= visited.len(),
            forall|k: int|
                0 <= k < i ==> version::node(#[trigger] visited@[k]) != version::node(*v),
        decreases visited.len() - i,
    {
        if node_eq(&visited[i], v) {
            return true;
        }
        i = i + 1;
    }
    false
}

fn extend_path(path: &Vec<DeltaEdgeOrigin>, origin: DeltaEdgeOrigin) -> (r: Vec<DeltaEdgeOrigin>)
    ensures
        edges::origins(r@) == edges::origins(path@).push(origin@),
{
    let mut r: Vec<DeltaEdgeOrigin> = clone_origins(path);
    let ghost before = r@;
    r.push(origin);
    assert(edges::origins(r@) =~= edges::origins(before).push(origin@));
    r
}

/// Queues what is one step from a node, but for the versions already visited.
fn queue_successors(
    graph: &DirectedAuditGraph,
    criteria_idx: usize,
    mode: SearchMode,
    n: &Node,
    visited: &Vec<Option<VetVersion>>,
    queue: &mut Vec<Node>,
    Ghost(q): Ghost<Query>,
)
    requires
        q.edges == graph_edges(*graph),
        q.criteria_idx == criteria_idx,
        q.mode == mode,
    ensures
        final(queue)@.len() >= old(queue)@.len(),
        forall|m: int|
            0 <= m < old(queue)@.len() ==> #[trigger] final(queue)@[m] == old(queue)@[m],
        forall|m: int|
            old(queue)@.len() <= m < final(queue)@.len() ==> q.is_successor(
                n@,
                (#[trigger] final(queue)@[m])@,
            ),
        forall|b: NodeView|
            #[trigger] q.is_successor(n@, b) && !version_listed(visited@, b.version) ==> queued(
                final(queue)@,
                b,
            ),
{
    let ghost out = graph.edges_from(n@.version);
    match graph.edges(&n.version) {
        Some(list) => {
            let mut i: usize = 0;
            while i < list.len()
                invariant
                    i <= list@.len(),
                    q.edges == graph_edges(*graph),
                    q.criteria_idx == criteria_idx,
                    q.mode == mode,
                    out == graph.edges_from(n@.version),
                    out == directed::edge_views(list@),
                    queue@.len() >= old(queue)@.len(),
                    forall|m: int|
                        0 <= m < old(queue)@.len() ==> #[trigger] queue@[m] == old(queue)@[m],
                    forall|m: int|
                        old(queue)@.len() <= m < queue@.len() ==> q.is_successor(
                            n@,
                            (#[trigger] queue@[m])@,
                        ),
                    forall|b: NodeView, k: int|
                        0 <= k < i && #[trigger] q.follows(n@, b, k) && !version_listed(
                            visited@,
                            b.version,
                        ) ==> queued(queue@, b),
                decreases list@.len() - i,
            {
                let edge: &DeltaEdge = &list[i];
                assert(out[i as int] == edge@);
                let exempted: bool = match &edge.origin {
                    DeltaEdgeOrigin::Exemption { exemption_index: _ } => mode
                        == SearchMode::RegenerateExemptions,
                    _ => false,
                };
                let ghost before = queue@;
                if (exempted || edge.criteria.has_criteria(criteria_idx)) && !is_visited(
                    visited,
                    &edge.version,
                ) {
                    let next: Node = Node {
                        version: clone_node(&edge.version),
                        origin_version: clone_node(&n.version),
                        path: extend_path(&n.path, edge.origin.clone()),
                        caveat_level: n.caveat_level.max_level(caveat_of(edge, mode)),
                    };
                    assert(next@ == extend(n@, edge@, mode));
                    assert(q.follows(n@, next@, i as int));
                    queue.push(next);
                    assert(queue@[before.len() as int]@ == next@);
                }
                proof {
                    assert forall|b: NodeView, k: int|
                        0 <= k < i + 1 && #[trigger] q.follows(n@, b, k) && !version_listed(
                            visited@,
                            b.version,
                        ) implies queued(queue@, b) by {
                        if k < i {
                            assert(queued(before, b));
                            let m = choose|m: int|
                                0 <= m < before.len() && (#[trigger] before[m])@ == b;
                            assert(queue@[m]@ == b);
                        } else {
                            assert(b == extend(n@, edge@, mode));
                            assert(queue@[before.len() as int]@ == b);
                        }
                    }
                }
                i = i + 1;
            }
        },
        None => {},
    }
    let ghost before = queue@;
    if mode == SearchMode::RegenerateExemptions {
        match &n.version {
            Some(v) => {
                let origin: DeltaEdgeOrigin = DeltaEdgeOrigin::FreshExemption {
                    version: v.clone(),
                };
                let next: Node = Node {
                    version: None,
                    origin_version: clone_node(&n.version),
                    path: extend_path(&n.path, origin),
                    caveat_level: n.caveat_level.max_level(CaveatLevel::FreshExemption),
                };
                assert(next@ == exempt(n@));
                queue.push(next);
                assert(queue@[before.len() as int]@ == exempt(n@));
            },
            None => {},
        }
    }
    proof {
        assert forall|b: NodeView|
            #[trigger] q.is_successor(n@, b) && !version_listed(visited@, b.version) implies queued(
            queue@,
            b,
        ) by {
            if exists|k: int| q.follows(n@, b, k) {
                let k = choose|k: int| q.follows(n@, b, k);
                assert(queued(before, b));
                let m = choose|m: int| 0 <= m < before.len() && (#[trigger] before[m])@ == b;
                assert(queue@[m]@ == b);
            } else {
                assert(queue@[before.len() as int]@ == b);
            }
        }
    }
}

proof fn lemma_same_items<T>(a: Seq<T>, b: Seq<T>, x: T)
    requires
        a.to_multiset() == b.to_multiset(),
        a.contains(x),
    ensures
        b.contains(x),
{
    broadcast use vstd::seq_lib::group_to_multiset_ensures;

    assert(a.to_multiset().count(x) > 0);
    assert(b.to_multiset().count(x) > 0);
}

/// Sorting a list of different versions keeps them different, and keeps which
/// versions it holds.
proof fn lemma_sorted_versions(s: Seq<Option<VetVersion>>)
    requires
        forall|i: int, j: int|
            0 <= i < j < s.len() ==> version::node(#[trigger] s[i]) != version::node(
                #[trigger] s[j],
            ),
    ensures
        ({
            let r = order::sort_by_key(s);
            &&& order::is_sorted(r)
            &&& forall|i: int, j: int|
                0 <= i < j < r.len() ==> version::node(#[trigger] r[i]) != version::node(
                    #[trigger] r[j],
                )
            &&& forall|v: Option<VetVersionView>| #[trigger]
                version_listed(r, v) == version_listed(s, v)
        }),
{
    broadcast use vstd::seq_lib::group_to_multiset_ensures;

    let r = order::sort_by_key(s);
    order::lemma_sort_by_key(s);
    assert(s.no_duplicates());
    s.lemma_multiset_has_no_duplicates();
    r.lemma_multiset_has_no_duplicates_conv();
    assert forall|i: int, j: int| 0 <= i < j < r.len() implies version::node(#[trigger] r[i])
        != version::node(#[trigger] r[j]) by {
        lemma_same_items(r, s, r[i]);
        lemma_same_items(r, s, r[j]);
        let a = choose|a: int| 0 <= a < s.len() && s[a] == r[i];
        let b = choose|b: int| 0 <= b < s.len() && s[b] == r[j];
        assert(r[i] != r[j]);
        assert(a != b);
        if a < b {
            assert(version::node(s[a]) != version::node(s[b]));
        } else {
            assert(version::node(s[b]) != version::node(s[a]));
        }
    }
    assert forall|v: Option<VetVersionView>| #[trigger]
        version_listed(r, v) == version_listed(s, v) by {
        if version_listed(r, v) {
            let i = choose|i: int| 0 <= i < r.len() && version::node(#[trigger] r[i]) == v;
            lemma_same_items(r, s, r[i]);
            let a = choose|a: int| 0 <= a < s.len() && s[a] == r[i];
            assert(version::node(s[a]) == v);
        }
        if version_listed(s, v) {
            let i = choose|i: int| 0 <= i < s.len() && version::node(#[trigger] s[i]) == v;
            lemma_same_items(s, r, s[i]);
            let a = choose|a: int| 0 <= a < r.len() && r[a] == s[i];
            assert(version::node(r[a]) == v);
        }
    }
}

/// The queue holds what is one step from the trace, and every candidate.
spec fn is_frontier(q: Query, t: Seq<NodeView>, queue: Seq<Node>) -> bool {
    &&& t.len() > 0 ==> forall|m: int| 0 <= m < queue.len() ==> q.extends(t, (#[trigger] queue[m])@)
    &&& t.len() == 0 ==> queue.len() == 1 && queue[0]@ == q.start()
    &&& forall|b: NodeView| #[trigger] q.is_candidate(t, b) ==> queued(queue, b)
}

/// A node whose version was visited can leave the queue.
proof fn lemma_skip(q: Query, t: Seq<NodeView>, queue: Seq<Node>, m: int)
    requires
        is_frontier(q, t, queue),
        t.len() > 0,
        0 <= m < queue.len(),
        visits(t, queue[m]@.version),
    ensures
        is_frontier(q, t, queue.remove(m)),
{
    let rest = queue.remove(m);
    assert forall|k: int| 0 <= k < rest.len() implies q.extends(t, (#[trigger] rest[k])@) by {
        if k < m {
            assert(rest[k] == queue[k]);
        } else {
            assert(rest[k] == queue[k + 1]);
        }
    }
    assert forall|b: NodeView| #[trigger] q.is_candidate(t, b) implies queued(rest, b) by {
        let x = choose|x: int| 0 <= x < queue.len() && (#[trigger] queue[x])@ == b;
        assert(x != m);
        if x < m {
            assert(rest[x] == queue[x]);
        } else {
            assert(rest[x - 1] == queue[x]);
        }
    }
}

/// A queued node with the least key is the next one that is visited.
proof fn lemma_visit(q: Query, t: Seq<NodeView>, queue: Seq<Node>, m: int)
    requires
        t.len() > 0,
        is_frontier(q, t, queue),
        0 <= m < queue.len(),
        !visits(t, queue[m]@.version),
        forall|k: int|
            0 <= k < queue.len() ==> order::lex_le(
                search_key(queue[m]@),
                search_key((#[trigger] queue[k])@),
            ),
    ensures
        q.is_next(t, queue[m]@),
{
    let n = queue[m]@;
    assert(q.extends(t, n));
    assert forall|b: NodeView| #[trigger] q.is_candidate(t, b) implies order::lex_le(
        search_key(n),
        search_key(b),
    ) by {
        let x = choose|x: int| 0 <= x < queue.len() && (#[trigger] queue[x])@ == b;
        assert(order::lex_le(search_key(queue[m]@), search_key(queue[x]@)));
    }
}

/// Visiting the next node makes a longer trace.
proof fn lemma_trace_push(q: Query, t: Seq<NodeView>, n: NodeView)
    requires
        t.len() > 0 ==> q.is_trace(t) && t.last().version != q.to && q.is_next(t, n),
        t.len() == 0 ==> n == q.start(),
    ensures
        q.is_trace(t.push(n)),
{
    let u = t.push(n);
    assert forall|i: int| 0 < i < u.len() implies q.is_next(u.take(i), #[trigger] u[i]) by {
        if i < t.len() {
            assert(u.take(i) =~= t.take(i));
            assert(u[i] == t[i]);
        } else {
            assert(u.take(i) =~= t);
        }
    }
    assert forall|i: int| 0 <= i < u.len() - 1 implies (#[trigger] u[i]).version != q.to by {
        assert(u[i] == t[i]);
    }
}

/// After the successors of a visited node were queued, the queue holds every
/// candidate again.
proof fn lemma_expand(q: Query, t: Seq<NodeView>, queue: Seq<Node>, m: int, grown: Seq<Node>)
    requires
        is_frontier(q, t, queue),
        0 <= m < queue.len(),
        grown.len() >= queue.len() - 1,
        forall|k: int| 0 <= k < queue.len() - 1 ==> #[trigger] grown[k] == queue.remove(m)[k],
        forall|k: int|
            queue.len() - 1 <= k < grown.len() ==> q.is_successor(
                queue[m]@,
                (#[trigger] grown[k])@,
            ),
        forall|b: NodeView|
            #[trigger] q.is_successor(queue[m]@, b) && !visits(t.push(queue[m]@), b.version)
                ==> queued(grown, b),
    ensures
        is_frontier(q, t.push(queue[m]@), grown),
{
    let n = queue[m]@;
    let u = t.push(n);
    let rest = queue.remove(m);
    assert forall|k: int| 0 <= k < grown.len() implies q.extends(u, (#[trigger] grown[k])@) by {
        if k < rest.len() {
            assert(grown[k] == rest[k]);
            let x = if k < m {
                k
            } else {
                k + 1
            };
            assert(rest[k] == queue[x]);
            assert(t.len() > 0);
            assert(q.extends(t, queue[x]@));
            let j = choose|j: int| 0 <= j < t.len() && q.is_successor(#[trigger] t[j], queue[x]@);
            assert(u[j] == t[j]);
        } else {
            assert(u[t.len() as int] == n);
        }
    }
    assert forall|b: NodeView| #[trigger] q.is_candidate(u, b) implies queued(grown, b) by {
        let j = choose|j: int| 0 <= j < u.len() && q.is_successor(#[trigger] u[j], b);
        if j < t.len() {
            assert(u[j] == t[j]);
            if visits(t, b.version) {
                let y = choose|y: int| 0 <= y < t.len() && (#[trigger] t[y]).version == b.version;
                assert(u[y].version == b.version);
            }
            assert(q.extends(t, b));
            assert(q.is_candidate(t, b));
            let x = choose|x: int| 0 <= x < queue.len() && (#[trigger] queue[x])@ == b;
            assert(u[t.len() as int].version == n.version);
            assert(x != m);
            if x < m {
                assert(rest[x] == queue[x]);
                assert(grown[x]@ == b);
            } else {
                assert(rest[x - 1] == queue[x]);
                assert(grown[x - 1]@ == b);
            }
        }
    }
}

/// The list of visited versions mirrors the trace.
spec fn mirrors(visited: Seq<Option<VetVersion>>, t: Seq<NodeView>) -> bool {
    &&& visited.len() == t.len()
    &&& forall|j: int| 0 <= j < t.len() ==> version::node(#[trigger] visited[j]) == t[j].version
}

proof fn lemma_mirrors(visited: Seq<Option<VetVersion>>, t: Seq<NodeView>)
    requires
        mirrors(visited, t),
    ensures
        forall|v: Option<VetVersionView>| #[trigger] visits(t, v) == version_listed(visited, v),
{
    assert forall|v: Option<VetVersionView>| #[trigger]
        visits(t, v) == version_listed(visited, v) by {
        if visits(t, v) {
            let j = choose|j: int| 0 <= j < t.len() && (#[trigger] t[j]).version == v;
            assert(version::node(visited[j]) == v);
        }
        if version_listed(visited, v) {
            let j = choose|j: int|
                0 <= j < visited.len() && version::node(#[trigger] visited[j]) == v;
            assert(t[j].version == v);
        }
    }
}

/// Searches for a path between two versions, all of whose edges count for a
/// criterion. A path with the fewest caveats is chosen, to minimize the
/// dependence on exemptions and on fresh imports. If there is no path, the
/// versions that can be reached are returned.
pub fn search_for_path(
    graph: &DirectedAuditGraph,
    criteria_idx: usize,
    from_version: &Option<VetVersion>,
    to_version: &Option<VetVersion>,
    mode: SearchMode,
) -> (r: Result<Vec<DeltaEdgeOrigin>, Vec<Option<VetVersion>>>)
    requires
        mode == SearchMode::RegenerateExemptions ==> to_version is None,
    ensures
        ({
            let q = Query {
                edges: graph_edges(*graph),
                criteria_idx: criteria_idx as int,
                from: version::node(*from_version),
                to: version::node(*to_version),
                mode,
            };
            match r {
                Ok(path) => q.reachable(q.to) && q.can_find(edges::origins(path@)),
                Err(seen) => !q.reachable(q.to) && lists_reachable(seen@, q),
            }
        }),
{
    let ghost q = Query {
        edges: graph_edges(*graph),
        criteria_idx: criteria_idx as int,
        from: version::node(*from_version),
        to: version::node(*to_version),
        mode,
    };
    let mut queue: Vec<Node> = Vec::new();
    queue.push(
        Node {
            version: clone_node(from_version),
            origin_version: clone_node(from_version),
            path: Vec::new(),
            caveat_level: CaveatLevel::NoCaveat,
        },
    );
    let mut visited: Vec<Option<VetVersion>> = Vec::new();
    let ghost mut t: Seq<NodeView> = Seq::empty();
    proof {
        assert(queue@[0]@.path =~= Seq::<DeltaEdgeOriginView>::empty());
        assert(queue@[0]@ == q.start());
    }
    while queue.len() > 0
        invariant
            q.edges == graph_edges(*graph),
            q.criteria_idx == criteria_idx,
            q.from == version::node(*from_version),
            q.to == version::node(*to_version),
            q.mode == mode,
            t.len() > 0 ==> q.is_trace(t) && t.last().version != q.to,
            is_frontier(q, t, queue@),
            t.len() <= universe(*graph, q).len(),
            mirrors(visited@, t),
        decreases universe(*graph, q).len() - t.len(), queue@.len(),
    {
        let m: usize = best(&queue);
        let ghost before = queue@;
        let n: Node = queue.remove(m);
        proof {
            lemma_mirrors(visited@, t);
        }
        if is_visited(&visited, &n.version) {
            proof {
                assert(visits(t, n@.version));
                lemma_skip(q, t, before, m as int);
            }
            continue;
        }
        let ghost old_t = t;
        proof {
            assert(!visits(t, n@.version));
            if t.len() > 0 {
                lemma_visit(q, t, before, m as int);
            }
            lemma_trace_push(q, t, n@);
            t = t.push(n@);
            lemma_trace_bound(*graph, q, t);
        }
        if node_eq(&n.version, to_version) {
            proof {
                assert(q.finds(t));
                let w = lemma_trace_walk(q, t, t.len() - 1);
                assert(q.is_walk(w) && w.last().version == q.to);
            }
            return Ok(n.path);
        }
        visited.push(clone_node(&n.version));
        proof {
            assert(mirrors(visited@, t));
            lemma_mirrors(visited@, t);
        }
        queue_successors(graph, criteria_idx, mode, &n, &visited, &mut queue, Ghost(q));
        proof {
            lemma_expand(q, old_t, before, m as int, queue@);
        }
    }
    proof {
        assert(t.len() > 0);
        assert forall|b: NodeView| !(#[trigger] q.is_candidate(t, b)) by {
            if q.is_candidate(t, b) {
                assert(queued(queue@, b));
            }
        }
        lemma_exhausted_reaches_all(q, t);
        assert forall|i: int, j: int| 0 <= i < j < visited@.len() implies version::node(
            #[trigger] visited@[i],
        ) != version::node(#[trigger] visited@[j]) by {
            assert(q.is_next(t.take(j), t[j]));
            assert(t.take(j)[i] == t[i]);
        }
        lemma_sorted_versions(visited@);
        lemma_mirrors(visited@, t);
        if visits(t, q.to) {
            let j = choose|j: int| 0 <= j < t.len() && (#[trigger] t[j]).version == q.to;
            assert(j == t.len() - 1);
        }
    }
    Err(sort(visited))
}

} // verus!
