//! Directed graphs whose nodes are versions and whose edges are audits.

use vstd::prelude::*;
use crate::edges::{DeltaEdge, DeltaEdgeView};
use crate::version;
use crate::version::{node_eq, VetVersion, VetVersionView};

verus! {

/// The edges that leave one node.
#[derive(Debug)]
pub struct EdgeGroup {
    pub from: Option<VetVersion>,
    pub edges: Vec<DeltaEdge>,
}

/// A graph in one direction. The node `None` is the root: it stands for an
/// empty package.
#[derive(Debug)]
pub struct DirectedAuditGraph {
    pub groups: Vec<EdgeGroup>,
}

/// The contents of a list of edges.
pub open spec fn edge_views(s: Seq<DeltaEdge>) -> Seq<DeltaEdgeView> {
    s.map_values(|e: DeltaEdge| e@)
}

/// The edges of the first group that leaves `v`.
pub open spec fn group_edges(s: Seq<EdgeGroup>, v: Option<VetVersionView>) -> Seq<DeltaEdgeView>
    decreases s.len(),
{
    if s.len() == 0 {
        Seq::empty()
    } else if version::node(s[0].from) == v {
        edge_views(s[0].edges@)
    } else {
        group_edges(s.drop_first(), v)
    }
}

/// The nodes that edges of the groups go to.
pub open spec fn group_targets(s: Seq<EdgeGroup>) -> Seq<Option<VetVersionView>>
    decreases s.len(),
{
    if s.len() == 0 {
        Seq::empty()
    } else {
        edge_views(s[0].edges@).map_values(|e: DeltaEdgeView| e.version) + group_targets(
            s.drop_first(),
        )
    }
}

proof fn lemma_group_hit(s: Seq<EdgeGroup>, v: Option<VetVersionView>, i: int)
    requires
        0 <= i < s.len(),
        version::node(s[i].from) == v,
        forall|k: int| 0 <= k < i ==> version::node((#[trigger] s[k]).from) != v,
    ensures
        group_edges(s, v) == edge_views(s[i].edges@),
    decreases i,
{
    if i > 0 {
        let t = s.drop_first();
        assert(version::node(s[0].from) != v);
        assert forall|k: int| 0 <= k < i - 1 implies version::node((#[trigger] t[k]).from) != v by {
            assert(version::node(s[k + 1].from) != v);
        }
        lemma_group_hit(t, v, i - 1);
    }
}

proof fn lemma_group_miss(s: Seq<EdgeGroup>, v: Option<VetVersionView>)
    requires
        forall|k: int| 0 <= k < s.len() ==> version::node((#[trigger] s[k]).from) != v,
    ensures
        group_edges(s, v) == Seq::<DeltaEdgeView>::empty(),
    decreases s.len(),
{
    if s.len() > 0 {
        let t = s.drop_first();
        assert(version::node(s[0].from) != v);
        assert forall|k: int| 0 <= k < t.len() implies version::node((#[trigger] t[k]).from) != v by {
            assert(version::node(s[k + 1].from) != v);
        }
        lemma_group_miss(t, v);
    }
}

/// Adding a group behind the others changes the edges of its node only.
proof fn lemma_group_push(s: Seq<EdgeGroup>, g: EdgeGroup, v: Option<VetVersionView>)
    requires
        forall|k: int|
            0 <= k < s.len() ==> version::node((#[trigger] s[k]).from) != version::node(g.from),
    ensures
        group_edges(s.push(g), v) == (if v == version::node(g.from) {
            edge_views(g.edges@)
        } else {
            group_edges(s, v)
        }),
    decreases s.len(),
{
    let u = s.push(g);
    if s.len() == 0 {
        assert(u[0] == g);
        assert(u.drop_first() =~= s);
    } else {
        let t = s.drop_first();
        assert(u[0] == s[0]);
        assert(u.drop_first() =~= t.push(g));
        assert(version::node(s[0].from) != version::node(g.from));
        assert forall|k: int| 0 <= k < t.len() implies version::node((#[trigger] t[k]).from)
            != version::node(g.from) by {
            assert(version::node(s[k + 1].from) != version::node(g.from));
        }
        lemma_group_push(t, g, v);
    }
}

/// Replacing the first group of a node changes the edges of that node only.
proof fn lemma_group_update(s: Seq<EdgeGroup>, i: int, g: EdgeGroup, v: Option<VetVersionView>)
    requires
        0 <= i < s.len(),
        version::node(s[i].from) == version::node(g.from),
        forall|k: int|
            0 <= k < i ==> version::node((#[trigger] s[k]).from) != version::node(g.from),
    ensures
        group_edges(s.update(i, g), v) == (if v == version::node(g.from) {
            edge_views(g.edges@)
        } else {
            group_edges(s, v)
        }),
    decreases s.len(),
{
    let u = s.update(i, g);
    if i == 0 {
        assert(u.drop_first() =~= s.drop_first());
    } else {
        let t = s.drop_first();
        assert(u.drop_first() =~= t.update(i - 1, g));
        assert(version::node(s[0].from) != version::node(g.from));
        assert forall|k: int| 0 <= k < i - 1 implies version::node((#[trigger] t[k]).from)
            != version::node(g.from) by {
            assert(version::node(s[k + 1].from) != version::node(g.from));
        }
        lemma_group_update(t, i - 1, g, v);
    }
}

/// An edge of the graph goes to one of the graph's targets.
pub proof fn lemma_edge_target(s: Seq<EdgeGroup>, v: Option<VetVersionView>, k: int)
    requires
        0 <= k < group_edges(s, v).len(),
    ensures
        group_targets(s).contains(group_edges(s, v)[k].version),
    decreases s.len(),
{
    if s.len() > 0 {
        let first = edge_views(s[0].edges@).map_values(|e: DeltaEdgeView| e.version);
        let rest = group_targets(s.drop_first());
        let all = group_targets(s);
        if version::node(s[0].from) == v {
            assert(first[k] == group_edges(s, v)[k].version);
            assert(all[k] == first[k]);
        } else {
            lemma_edge_target(s.drop_first(), v, k);
            let x = group_edges(s, v)[k].version;
            let m = choose|m: int| 0 <= m < rest.len() && rest[m] == x;
            assert(all[first.len() + m] == x);
        }
    }
}

impl DirectedAuditGraph {
    /// The edges that leave `v`, in the order in which they were added.
    pub open spec fn edges_from(&self, v: Option<VetVersionView>) -> Seq<DeltaEdgeView> {
        group_edges(self.groups@, v)
    }

    /// A graph without edges.
    pub fn new() -> (r: DirectedAuditGraph)
        ensures
            forall|v: Option<VetVersionView>|
                #[trigger] r.edges_from(v) == Seq::<DeltaEdgeView>::empty(),
    {
        DirectedAuditGraph { groups: Vec::new() }
    }

    fn find(&self, v: &Option<VetVersion>) -> (r: Option<usize>)
        ensures
            match r {
                Some(i) => i < self.groups@.len() && version::node(self.groups@[i as int].from)
                    == version::node(*v) && forall|k: int|
                    0 <= k < i ==> version::node((#[trigger] self.groups@[k]).from)
                        != version::node(*v),
                None => forall|k: int|
                    0 <= k < self.groups@.len() ==> version::node((#[trigger] self.groups@[k]).from)
                        != version::node(*v),
            },
    {
        let mut i: usize = 0;
        while i < self.groups.len()
            invariant
                i <= self.groups.len(),
                forall|k: int|
                    0 <= k < i ==> version::node((#[trigger] self.groups@[k]).from) != version::node(
                        *v,
                    ),
            decreases self.groups.len() - i,
        {
            if node_eq(&self.groups[i].from, v) {
                return Some(i);
            }
            i = i + 1;
        }
        None
    }

    /// The edges that leave a node, if there are any.
    pub fn edges(&self, v: &Option<VetVersion>) -> (r: Option<&Vec<DeltaEdge>>)
        ensures
            match r {
                Some(list) => edge_views(list@) == self.edges_from(version::node(*v)),
                None => self.edges_from(version::node(*v)).len() == 0,
            },
    {
        match self.find(v) {
            Some(i) => {
                proof {
                    lemma_group_hit(self.groups@, version::node(*v), i as int);
                }
                Some(&self.groups[i].edges)
            },
            None => {
                proof {
                    lemma_group_miss(self.groups@, version::node(*v));
                }
                None
            },
        }
    }

    /// Adds an edge that leaves `from`.
    pub fn add_edge(&mut self, from: Option<VetVersion>, edge: DeltaEdge)
        ensures
            forall|v: Option<VetVersionView>|
                #[trigger] final(self).edges_from(v) == (if v == version::node(from) {
                    old(self).edges_from(v).push(edge@)
                } else {
                    old(self).edges_from(v)
                }),
    {
        let ghost before = self.groups@;
        match self.find(&from) {
            Some(i) => {
                let ghost list = self.groups@[i as int].edges@;
                self.groups[i].edges.push(edge);
                proof {
                    let g = self.groups@[i as int];
                    assert(self.groups@ =~= before.update(i as int, g));
                    assert(edge_views(g.edges@) =~= edge_views(list).push(edge@));
                    lemma_group_hit(before, version::node(from), i as int);
                    assert forall|v: Option<VetVersionView>|
                        #[trigger] self.edges_from(v) == (if v == version::node(from) {
                            old(self).edges_from(v).push(edge@)
                        } else {
                            old(self).edges_from(v)
                        }) by {
                        lemma_group_update(before, i as int, g, v);
                    }
                }
            },
            None => {
                let mut list: Vec<DeltaEdge> = Vec::new();
                list.push(edge);
                let g = EdgeGroup { from, edges: list };
                let ghost gg = g;
                self.groups.push(g);
                proof {
                    lemma_group_miss(before, version::node(from));
                    assert(edge_views(list@) =~= Seq::<DeltaEdgeView>::empty().push(edge@));
                    assert forall|v: Option<VetVersionView>|
                        #[trigger] self.edges_from(v) == (if v == version::node(from) {
                            old(self).edges_from(v).push(edge@)
                        } else {
                            old(self).edges_from(v)
                        }) by {
                        lemma_group_push(before, gg, v);
                    }
                }
            },
        }
    }
}

} // verus!
