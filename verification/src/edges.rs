//! The edges of an audit graph and what they stand for.

use vstd::prelude::*;
use crate::criteria::CriteriaSet;
use crate::records;
use crate::order::Keyed;
use crate::version;
use crate::version::{clone_node, version_eq, VetVersion, VetVersionView};

verus! {

/// How a search chooses between paths.
#[derive(Debug, Copy, Clone, Eq, PartialEq, Structural)]
pub enum SearchMode {
    /// Prefer exemptions over fresh imports when searching.
    PreferExemptions,
    /// Prefer fresh imports over exemptions when searching for paths.
    PreferFreshImports,
    /// Prefer fresh imports over exemptions, and allow introducing new
    /// exemptions or expanding their criteria beyond the written criteria.
    RegenerateExemptions,
}

/// The precise origin of an edge in the audit graph.
#[allow(inconsistent_fields)]
#[derive(Debug, Eq, PartialEq)]
pub enum DeltaEdgeOrigin {
    /// An audit of the project itself.
    StoredLocalAudit { audit_index: usize, importable: bool },
    /// An audit imported from a peer.
    ImportedAudit { import_index: usize, audit_index: usize },
    /// A wildcard audit that covers a release.
    WildcardAudit { import_index: Option<usize>, audit_index: usize, publisher_index: usize },
    /// A trusted publisher.
    Trusted { publisher_index: usize },
    /// An exemption of the project.
    Exemption { exemption_index: usize },
    /// An unpublished entry.
    Unpublished { unpublished_index: usize },
    /// A brand new exemption which the audit graph does not hold. Only a search
    /// with [`SearchMode::RegenerateExemptions`] produces it.
    FreshExemption { version: VetVersion },
}

/// The contents of a [`DeltaEdgeOrigin`].
#[allow(inconsistent_fields)]
#[verifier::ext_equal]
pub enum DeltaEdgeOriginView {
    StoredLocalAudit { audit_index: usize, importable: bool },
    ImportedAudit { import_index: usize, audit_index: usize },
    WildcardAudit { import_index: Option<usize>, audit_index: usize, publisher_index: usize },
    Trusted { publisher_index: usize },
    Exemption { exemption_index: usize },
    Unpublished { unpublished_index: usize },
    FreshExemption { version: VetVersionView },
}

impl View for DeltaEdgeOrigin {
    type V = DeltaEdgeOriginView;

    open spec fn view(&self) -> DeltaEdgeOriginView {
        match *self {
            DeltaEdgeOrigin::StoredLocalAudit {
                audit_index,
                importable,
            } => DeltaEdgeOriginView::StoredLocalAudit { audit_index, importable },
            DeltaEdgeOrigin::ImportedAudit {
                import_index,
                audit_index,
            } => DeltaEdgeOriginView::ImportedAudit { import_index, audit_index },
            DeltaEdgeOrigin::WildcardAudit {
                import_index,
                audit_index,
                publisher_index,
            } => DeltaEdgeOriginView::WildcardAudit { import_index, audit_index, publisher_index },
            DeltaEdgeOrigin::Trusted { publisher_index } => DeltaEdgeOriginView::Trusted {
                publisher_index,
            },
            DeltaEdgeOrigin::Exemption { exemption_index } => DeltaEdgeOriginView::Exemption {
                exemption_index,
            },
            DeltaEdgeOrigin::Unpublished { unpublished_index } => DeltaEdgeOriginView::Unpublished {
                unpublished_index,
            },
            DeltaEdgeOrigin::FreshExemption { version } => DeltaEdgeOriginView::FreshExemption {
                version: version@,
            },
        }
    }
}

impl Clone for DeltaEdgeOrigin {
    fn clone(&self) -> (r: DeltaEdgeOrigin)
        ensures
            r@ == self@,
    {
        match self {
            DeltaEdgeOrigin::StoredLocalAudit {
                audit_index,
                importable,
            } => DeltaEdgeOrigin::StoredLocalAudit {
                audit_index: *audit_index,
                importable: *importable,
            },
            DeltaEdgeOrigin::ImportedAudit {
                import_index,
                audit_index,
            } => DeltaEdgeOrigin::ImportedAudit {
                import_index: *import_index,
                audit_index: *audit_index,
            },
            DeltaEdgeOrigin::WildcardAudit {
                import_index,
                audit_index,
                publisher_index,
            } => DeltaEdgeOrigin::WildcardAudit {
                import_index: *import_index,
                audit_index: *audit_index,
                publisher_index: *publisher_index,
            },
            DeltaEdgeOrigin::Trusted { publisher_index } => DeltaEdgeOrigin::Trusted {
                publisher_index: *publisher_index,
            },
            DeltaEdgeOrigin::Exemption { exemption_index } => DeltaEdgeOrigin::Exemption {
                exemption_index: *exemption_index,
            },
            DeltaEdgeOrigin::Unpublished { unpublished_index } => DeltaEdgeOrigin::Unpublished {
                unpublished_index: *unpublished_index,
            },
            DeltaEdgeOrigin::FreshExemption { version } => DeltaEdgeOrigin::FreshExemption {
                version: version.clone(),
            },
        }
    }
}

/// The key of an optional index, with an absent one first.
pub open spec fn opt_index_key(o: Option<usize>) -> Seq<u64> {
    match o {
        None => seq![0u64],
        Some(i) => seq![1u64, i as u64],
    }
}

/// The key that orders origins, with more local ones first.
pub open spec fn origin_key(o: DeltaEdgeOriginView) -> Seq<u64> {
    match o {
        DeltaEdgeOriginView::StoredLocalAudit { audit_index, importable } => seq![
            0u64,
            audit_index as u64,
            records::flag(importable),
        ],
        DeltaEdgeOriginView::ImportedAudit { import_index, audit_index } => seq![
            1u64,
            import_index as u64,
            audit_index as u64,
        ],
        DeltaEdgeOriginView::WildcardAudit { import_index, audit_index, publisher_index } => seq![
            2u64,
        ] + opt_index_key(import_index) + seq![audit_index as u64, publisher_index as u64],
        DeltaEdgeOriginView::Trusted { publisher_index } => seq![3u64, publisher_index as u64],
        DeltaEdgeOriginView::Exemption { exemption_index } => seq![4u64, exemption_index as u64],
        DeltaEdgeOriginView::Unpublished { unpublished_index } => seq![
            5u64,
            unpublished_index as u64,
        ],
        DeltaEdgeOriginView::FreshExemption { version } => seq![6u64] + version::vet_version_key(
            version,
        ),
    }
}

impl Keyed for DeltaEdgeOrigin {
    open spec fn sort_key(&self) -> Seq<u64> {
        origin_key(self@)
    }

    fn push_key(&self, out: &mut Vec<u64>) {
        let ghost start = out@;
        match self {
            DeltaEdgeOrigin::StoredLocalAudit { audit_index, importable } => {
                out.push(0);
                out.push(*audit_index as u64);
                out.push(if *importable { 1 } else { 0 });
            },
            DeltaEdgeOrigin::ImportedAudit { import_index, audit_index } => {
                out.push(1);
                out.push(*import_index as u64);
                out.push(*audit_index as u64);
            },
            DeltaEdgeOrigin::WildcardAudit { import_index, audit_index, publisher_index } => {
                out.push(2);
                match import_index {
                    None => {
                        out.push(0);
                    },
                    Some(i) => {
                        out.push(1);
                        out.push(*i as u64);
                    },
                }
                out.push(*audit_index as u64);
                out.push(*publisher_index as u64);
            },
            DeltaEdgeOrigin::Trusted { publisher_index } => {
                out.push(3);
                out.push(*publisher_index as u64);
            },
            DeltaEdgeOrigin::Exemption { exemption_index } => {
                out.push(4);
                out.push(*exemption_index as u64);
            },
            DeltaEdgeOrigin::Unpublished { unpublished_index } => {
                out.push(5);
                out.push(*unpublished_index as u64);
            },
            DeltaEdgeOrigin::FreshExemption { version } => {
                out.push(6);
                version.push_key(out);
            },
        }
        assert(out@ =~= start + origin_key(self@));
        assert(self.sort_key() == origin_key(self@));
        assert(out@ == start + self.sort_key());
    }
}

/// The contents of a path.
pub open spec fn origins(path: Seq<DeltaEdgeOrigin>) -> Seq<DeltaEdgeOriginView> {
    path.map_values(|o: DeltaEdgeOrigin| o@)
}

/// Copies a path.
pub fn clone_origins(v: &Vec<DeltaEdgeOrigin>) -> (r: Vec<DeltaEdgeOrigin>)
    ensures
        origins(r@) == origins(v@),
{
    let mut r: Vec<DeltaEdgeOrigin> = Vec::new();
    let mut i: usize = 0;
    while i < v.len()
        invariant
            i <= v.len(),
            origins(r@) == origins(v@).take(i as int),
        decreases v.len() - i,
    {
        let ghost before = r@;
        r.push(v[i].clone());
        proof {
            assert(origins(r@) =~= origins(before).push(v@[i as int]@));
            assert(origins(v@).take(i + 1) =~= origins(v@).take(i as int).push(v@[i as int]@));
        }
        i = i + 1;
    }
    assert(origins(v@).take(i as int) =~= origins(v@));
    r
}

/// How much of what an edge needs is stored already.
#[derive(Debug, Copy, Clone, Eq, PartialEq, Structural)]
pub enum DeltaEdgeFreshness {
    /// All information that the edge needs is stored already.
    Stale,
    /// The edge needs fresh publisher information, but no fresh audit.
    FreshPublisher,
    /// The edge is fully fresh.
    Fresh,
}

impl DeltaEdgeFreshness {
    /// The freshness of an edge that rests on an audit and on a publisher.
    pub open spec fn spec_new(is_fresh_audit: bool, is_fresh_publisher: bool) -> DeltaEdgeFreshness {
        if is_fresh_audit {
            DeltaEdgeFreshness::Fresh
        } else if is_fresh_publisher {
            DeltaEdgeFreshness::FreshPublisher
        } else {
            DeltaEdgeFreshness::Stale
        }
    }

    /// The freshness of an edge that rests on an audit and on a publisher.
    pub fn new(is_fresh_audit: bool, is_fresh_publisher: bool) -> (r: DeltaEdgeFreshness)
        ensures
            r == DeltaEdgeFreshness::spec_new(is_fresh_audit, is_fresh_publisher),
    {
        if is_fresh_audit {
            DeltaEdgeFreshness::Fresh
        } else if is_fresh_publisher {
            DeltaEdgeFreshness::FreshPublisher
        } else {
            DeltaEdgeFreshness::Stale
        }
    }

    /// Whether using the edge changes what is stored.
    pub fn is_fresh(&self) -> (r: bool)
        ensures
            r == (*self != DeltaEdgeFreshness::Stale),
    {
        *self != DeltaEdgeFreshness::Stale
    }
}

/// A directed edge in the graph of audits. This may be forward or backward,
/// depending on whether the search starts at the root or at the target. The
/// source is not part of it.
#[derive(Debug)]
pub struct DeltaEdge {
    /// The version this edge goes to.
    pub version: Option<VetVersion>,
    /// The criteria that this edge is valid for.
    pub criteria: CriteriaSet,
    /// The origin of this edge.
    pub origin: DeltaEdgeOrigin,
    /// Whether or not the edge is a fresh import, and should be de-prioritized
    /// to avoid unnecessary changes of what is stored.
    pub freshness: DeltaEdgeFreshness,
}

/// The contents of a [`DeltaEdge`].
#[verifier::ext_equal]
pub struct DeltaEdgeView {
    pub version: Option<VetVersionView>,
    pub criteria: CriteriaSet,
    pub origin: DeltaEdgeOriginView,
    pub freshness: DeltaEdgeFreshness,
}

impl View for DeltaEdge {
    type V = DeltaEdgeView;

    open spec fn view(&self) -> DeltaEdgeView {
        DeltaEdgeView {
            version: version::node(self.version),
            criteria: self.criteria,
            origin: self.origin@,
            freshness: self.freshness,
        }
    }
}

impl Clone for DeltaEdge {
    fn clone(&self) -> (r: DeltaEdge)
        ensures
            r@ == self@,
    {
        DeltaEdge {
            version: clone_node(&self.version),
            criteria: self.criteria,
            origin: self.origin.clone(),
            freshness: self.freshness,
        }
    }
}

/// An indication of a required local audit, imported entry, or exemption.
#[derive(Debug, Eq, PartialEq)]
pub enum RequiredEntry {
    LocalAudit { audit_index: usize },
    Audit { import_index: usize, audit_index: usize },
    WildcardAudit { import_index: usize, audit_index: usize },
    Publisher { publisher_index: usize },
    Exemption { exemption_index: usize },
    Unpublished { unpublished_index: usize },
    /// An exemption that does not exist yet.
    FreshExemption { version: VetVersion },
}

/// The contents of a [`RequiredEntry`].
#[verifier::ext_equal]
pub enum RequiredEntryView {
    LocalAudit { audit_index: usize },
    Audit { import_index: usize, audit_index: usize },
    WildcardAudit { import_index: usize, audit_index: usize },
    Publisher { publisher_index: usize },
    Exemption { exemption_index: usize },
    Unpublished { unpublished_index: usize },
    FreshExemption { version: VetVersionView },
}

impl View for RequiredEntry {
    type V = RequiredEntryView;

    open spec fn view(&self) -> RequiredEntryView {
        match *self {
            RequiredEntry::LocalAudit { audit_index } => RequiredEntryView::LocalAudit {
                audit_index,
            },
            RequiredEntry::Audit { import_index, audit_index } => RequiredEntryView::Audit {
                import_index,
                audit_index,
            },
            RequiredEntry::WildcardAudit {
                import_index,
                audit_index,
            } => RequiredEntryView::WildcardAudit { import_index, audit_index },
            RequiredEntry::Publisher { publisher_index } => RequiredEntryView::Publisher {
                publisher_index,
            },
            RequiredEntry::Exemption { exemption_index } => RequiredEntryView::Exemption {
                exemption_index,
            },
            RequiredEntry::Unpublished { unpublished_index } => RequiredEntryView::Unpublished {
                unpublished_index,
            },
            RequiredEntry::FreshExemption { version } => RequiredEntryView::FreshExemption {
                version: version@,
            },
        }
    }
}

impl Clone for RequiredEntry {
    fn clone(&self) -> (r: RequiredEntry)
        ensures
            r@ == self@,
    {
        match self {
            RequiredEntry::LocalAudit { audit_index } => RequiredEntry::LocalAudit {
                audit_index: *audit_index,
            },
            RequiredEntry::Audit { import_index, audit_index } => RequiredEntry::Audit {
                import_index: *import_index,
                audit_index: *audit_index,
            },
            RequiredEntry::WildcardAudit {
                import_index,
                audit_index,
            } => RequiredEntry::WildcardAudit {
                import_index: *import_index,
                audit_index: *audit_index,
            },
            RequiredEntry::Publisher { publisher_index } => RequiredEntry::Publisher {
                publisher_index: *publisher_index,
            },
            RequiredEntry::Exemption { exemption_index } => RequiredEntry::Exemption {
                exemption_index: *exemption_index,
            },
            RequiredEntry::Unpublished { unpublished_index } => RequiredEntry::Unpublished {
                unpublished_index: *unpublished_index,
            },
            RequiredEntry::FreshExemption { version } => RequiredEntry::FreshExemption {
                version: version.clone(),
            },
        }
    }
}

/// Whether two required entries are the same.
pub fn required_eq(a: &RequiredEntry, b: &RequiredEntry) -> (r: bool)
    ensures
        r == (a@ == b@),
{
    match (a, b) {
        (
            RequiredEntry::LocalAudit { audit_index: x },
            RequiredEntry::LocalAudit { audit_index: y },
        ) => *x == *y,
        (
            RequiredEntry::Audit { import_index: i, audit_index: x },
            RequiredEntry::Audit { import_index: j, audit_index: y },
        ) => *i == *j && *x == *y,
        (
            RequiredEntry::WildcardAudit { import_index: i, audit_index: x },
            RequiredEntry::WildcardAudit { import_index: j, audit_index: y },
        ) => *i == *j && *x == *y,
        (
            RequiredEntry::Publisher { publisher_index: x },
            RequiredEntry::Publisher { publisher_index: y },
        ) => *x == *y,
        (
            RequiredEntry::Exemption { exemption_index: x },
            RequiredEntry::Exemption { exemption_index: y },
        ) => *x == *y,
        (
            RequiredEntry::Unpublished { unpublished_index: x },
            RequiredEntry::Unpublished { unpublished_index: y },
        ) => *x == *y,
        (
            RequiredEntry::FreshExemption { version: x },
            RequiredEntry::FreshExemption { version: y },
        ) => version_eq(x, y),
        _ => false,
    }
}

} // verus!
