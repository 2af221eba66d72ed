//! Which entries of the store are needed.

use vstd::prelude::*;
use crate::audit_graph;
use crate::audit_graph::{AuditGraph, EdgeView};
use crate::criteria;
use crate::criteria::{CriteriaMapper, CriteriaSet};
use crate::edges;
use crate::edges::{
    required_eq, DeltaEdgeOrigin, DeltaEdgeOriginView, RequiredEntry, RequiredEntryView, SearchMode,
};
use crate::packages::Package;
use crate::records::Store;
use crate::search::Query;
use crate::text::text_eq;

verus! {

/// Whether an edge of a path needs an entry of the store.
pub open spec fn needs(origin: DeltaEdgeOriginView, e: RequiredEntryView) -> bool {
    match origin {
        DeltaEdgeOriginView::StoredLocalAudit { audit_index, importable: _ } => e
            == RequiredEntryView::LocalAudit { audit_index },
        DeltaEdgeOriginView::ImportedAudit { import_index, audit_index } => e
            == RequiredEntryView::Audit { import_index, audit_index },
        DeltaEdgeOriginView::WildcardAudit { import_index, audit_index, publisher_index } => e
            == RequiredEntryView::Publisher { publisher_index } || (match import_index {
            Some(import_index) => e == RequiredEntryView::WildcardAudit {
                import_index,
                audit_index,
            },
            None => false,
        }),
        DeltaEdgeOriginView::Trusted { publisher_index } => e == RequiredEntryView::Publisher {
            publisher_index,
        },
        DeltaEdgeOriginView::Exemption { exemption_index } => e == RequiredEntryView::Exemption {
            exemption_index,
        },
        DeltaEdgeOriginView::Unpublished { unpublished_index } => e
            == RequiredEntryView::Unpublished { unpublished_index },
        DeltaEdgeOriginView::FreshExemption { version } => e
            == RequiredEntryView::FreshExemption { version },
    }
}

/// Whether a path needs an entry of the store.
pub open spec fn uses(path: Seq<DeltaEdgeOriginView>, e: RequiredEntryView) -> bool {
    exists|j: int| 0 <= j < path.len() && needs(#[trigger] path[j], e)
}

/// The entries that some proofs need, each with the criteria that it is needed
/// for.
#[derive(Debug)]
pub struct RequiredEntries {
    entries: Vec<(RequiredEntry, CriteriaSet)>,
}

/// The criteria of the first pair with an entry.
pub open spec fn find_entry(s: Seq<(RequiredEntryView, CriteriaSet)>, e: RequiredEntryView) -> Option<
    CriteriaSet,
>
    decreases s.len(),
{
    if s.len() == 0 {
        None
    } else if s[0].0 == e {
        Some(s[0].1)
    } else {
        find_entry(s.drop_first(), e)
    }
}

proof fn lemma_find_entry(s: Seq<(RequiredEntryView, CriteriaSet)>, i: int)
    requires
        0 <= i < s.len(),
        forall|a: int, b: int| 0 <= a < b < s.len() ==> (#[trigger] s[a]).0 != (#[trigger] s[b]).0,
    ensures
        find_entry(s, s[i].0) == Some(s[i].1),
    decreases s.len(),
{
    if i > 0 {
        assert(s[0].0 != s[i].0);
        assert(s.drop_first()[i - 1] == s[i]);
        lemma_find_entry(s.drop_first(), i - 1);
    }
}

proof fn lemma_find_none(s: Seq<(RequiredEntryView, CriteriaSet)>, e: RequiredEntryView)
    requires
        forall|i: int| 0 <= i < s.len() ==> (#[trigger] s[i]).0 != e,
    ensures
        find_entry(s, e) is None,
    decreases s.len(),
{
    if s.len() > 0 {
        assert(s[0].0 != e);
        assert forall|i: int| 0 <= i < s.drop_first().len() implies (
        #[trigger] s.drop_first()[i]).0 != e by {
            assert(s.drop_first()[i] == s[i + 1]);
        }
        lemma_find_none(s.drop_first(), e);
    }
}

proof fn lemma_find_some(s: Seq<(RequiredEntryView, CriteriaSet)>, e: RequiredEntryView) -> (i: int)
    requires
        find_entry(s, e) is Some,
    ensures
        0 <= i < s.len(),
        s[i].0 == e,
        find_entry(s, e) == Some(s[i].1),
    decreases s.len(),
{
    if s[0].0 == e {
        0
    } else {
        let i = lemma_find_some(s.drop_first(), e);
        i + 1
    }
}

impl RequiredEntries {
    /// The entries and their criteria.
    pub closed spec fn listing(&self) -> Seq<(RequiredEntryView, CriteriaSet)> {
        self.entries@.map_values(|x: (RequiredEntry, CriteriaSet)| (x.0@, x.1))
    }

    /// The criteria that an entry is needed for, if it is needed.
    pub open spec fn criteria_for(&self, e: RequiredEntryView) -> Option<CriteriaSet> {
        find_entry(self.listing(), e)
    }

    /// Whether an entry is needed.
    pub open spec fn has(&self, e: RequiredEntryView) -> bool {
        self.criteria_for(e) is Some
    }

    /// Whether an entry is needed for a criterion.
    pub open spec fn has_for(&self, e: RequiredEntryView, i: int) -> bool {
        self.criteria_for(e) is Some && self.criteria_for(e)->0.has(i)
    }

    /// No entry is listed twice.
    #[verifier::type_invariant]
    pub open spec fn wf(&self) -> bool {
        forall|a: int, b: int|
            0 <= a < b < self.listing().len() ==> (#[trigger] self.listing()[a]).0 != (
            #[trigger] self.listing()[b]).0
    }

    /// Nothing is needed.
    pub fn new() -> (r: RequiredEntries)
        ensures
            r.wf(),
            r.listing().len() == 0,
            forall|e: RequiredEntryView| !(#[trigger] r.has(e)),
    {
        RequiredEntries { entries: Vec::new() }
    }

    /// The number of entries.
    pub fn len(&self) -> (r: usize)
        ensures
            r == self.listing().len(),
    {
        self.entries.len()
    }

    /// The entries of the listing are those that are needed.
    pub proof fn lemma_listing(&self, i: int)
        requires
            self.wf(),
            0 <= i < self.listing().len(),
        ensures
            self.criteria_for(self.listing()[i].0) == Some(self.listing()[i].1),
    {
        lemma_find_entry(self.listing(), i);
    }

    /// What is needed is in the listing.
    pub proof fn lemma_listed(&self, e: RequiredEntryView) -> (i: int)
        requires
            self.has(e),
        ensures
            0 <= i < self.listing().len(),
            self.listing()[i].0 == e,
            self.criteria_for(e) == Some(self.listing()[i].1),
    {
        lemma_find_some(self.listing(), e)
    }

    /// One of the entries.
    pub fn entry_at(&self, i: usize) -> (r: (&RequiredEntry, CriteriaSet))
        requires
            i < self.listing().len(),
        ensures
            (r.0@, r.1) == self.listing()[i as int],
    {
        (&self.entries[i].0, self.entries[i].1)
    }

    fn position(&self, e: &RequiredEntry) -> (r: Option<usize>)
        ensures
            match r {
                Some(i) => i < self.listing().len() && self.listing()[i as int].0 == e@
                    && self.criteria_for(e@) == Some(self.listing()[i as int].1),
                None => self.criteria_for(e@) is None && forall|i: int|
                    0 <= i < self.listing().len() ==> (#[trigger] self.listing()[i]).0 != e@,
            },
    {
        proof {
            use_type_invariant(self);
        }
        let mut i: usize = 0;
        while i < self.entries.len()
            invariant
                self.wf(),
                i <= self.entries@.len(),
                forall|x: int| 0 <= x < i ==> (#[trigger] self.listing()[x]).0 != e@,
            decreases self.entries@.len() - i,
        {
            assert(self.listing()[i as int].0 == self.entries@[i as int].0@);
            if required_eq(&self.entries[i].0, e) {
                proof {
                    lemma_find_entry(self.listing(), i as int);
                }
                return Some(i);
            }
            i = i + 1;
        }
        proof {
            lemma_find_none(self.listing(), e@);
        }
        None
    }

    /// The criteria that an entry is needed for, if it is needed.
    pub fn get(&self, e: &RequiredEntry) -> (r: Option<CriteriaSet>)
        ensures
            r == self.criteria_for(e@),
    {
        match self.position(e) {
            Some(i) => Some(self.entries[i].1),
            None => None,
        }
    }

    /// Whether an entry is needed.
    pub fn contains_key(&self, e: &RequiredEntry) -> (r: bool)
        ensures
            r == self.has(e@),
    {
        self.position(e).is_some()
    }

    /// Notes that an entry is needed for a criterion.
    fn add_entry(&mut self, entry: RequiredEntry, criteria_idx: usize)
        requires
            criteria_idx < 64,
        ensures
            forall|e: RequiredEntryView| #[trigger]
                final(self).has(e) == (old(self).has(e) || e == entry@),
            forall|e: RequiredEntryView, i: int| #[trigger]
                final(self).has_for(e, i) == (old(self).has_for(e, i) || e == entry@ && i
                    == criteria_idx),
    {
        proof {
            use_type_invariant(&*self);
        }
        let ghost before = self.listing();
        let ghost old_self = *self;
        let ghost key = entry@;
        let mut entries: Vec<(RequiredEntry, CriteriaSet)> = Vec::new();
        match self.position(&entry) {
            Some(k) => {
                let mut set: CriteriaSet = self.entries[k].1;
                set.set_criteria(criteria_idx);
                std::mem::swap(&mut entries, &mut self.entries);
                entries.set(k, (entry, set));
                let ghost after = RequiredEntries { entries }.listing();
                proof {
                    assert(after =~= before.update(k as int, (key, set)));
                    assert forall|e: RequiredEntryView| #[trigger]
                        find_entry(after, e) == (if e == key {
                            Some(set)
                        } else {
                            find_entry(before, e)
                        }) by {
                        lemma_entry_update(before, k as int, set, e);
                    }
                }
            },
            None => {
                let mut set = CriteriaSet::none();
                set.set_criteria(criteria_idx);
                std::mem::swap(&mut entries, &mut self.entries);
                entries.push((entry, set));
                let ghost after = RequiredEntries { entries }.listing();
                proof {
                    assert(after =~= before.push((key, set)));
                    assert forall|e: RequiredEntryView| #[trigger]
                        find_entry(after, e) == (if e == key {
                            Some(set)
                        } else {
                            find_entry(before, e)
                        }) by {
                        lemma_entry_push(before, key, set, e);
                    }
                }
            },
        }
        self.entries = entries;
        proof {
            assert forall|e: RequiredEntryView, i: int| #[trigger]
                self.has_for(e, i) == (old_self.has_for(e, i) || e == key && i == criteria_idx) by {
                assert(find_entry(self.listing(), e) == find_entry(self.listing(), e));
            }
        }
    }
}

proof fn lemma_entry_update(
    s: Seq<(RequiredEntryView, CriteriaSet)>,
    k: int,
    set: CriteriaSet,
    e: RequiredEntryView,
)
    requires
        0 <= k < s.len(),
        forall|a: int, b: int| 0 <= a < b < s.len() ==> (#[trigger] s[a]).0 != (#[trigger] s[b]).0,
    ensures
        find_entry(s.update(k, (s[k].0, set)), e) == (if e == s[k].0 {
            Some(set)
        } else {
            find_entry(s, e)
        }),
    decreases s.len(),
{
    let u = s.update(k, (s[k].0, set));
    if k == 0 {
        assert(u.drop_first() =~= s.drop_first());
    } else {
        assert(s[0].0 != s[k].0);
        assert(u.drop_first() =~= s.drop_first().update(k - 1, (s[k].0, set)));
        assert(s.drop_first()[k - 1] == s[k]);
        lemma_entry_update(s.drop_first(), k - 1, set, e);
    }
}

proof fn lemma_entry_push(
    s: Seq<(RequiredEntryView, CriteriaSet)>,
    key: RequiredEntryView,
    set: CriteriaSet,
    e: RequiredEntryView,
)
    requires
        forall|i: int| 0 <= i < s.len() ==> (#[trigger] s[i]).0 != key,
    ensures
        find_entry(s.push((key, set)), e) == (if e == key {
            Some(set)
        } else {
            find_entry(s, e)
        }),
    decreases s.len(),
{
    let u = s.push((key, set));
    if s.len() > 0 {
        assert(s[0].0 != key);
        assert(u.drop_first() =~= s.drop_first().push((key, set)));
        assert forall|i: int| 0 <= i < s.drop_first().len() implies (
        #[trigger] s.drop_first()[i]).0 != key by {
            assert(s.drop_first()[i] == s[i + 1]);
        }
        lemma_entry_push(s.drop_first(), key, set, e);
    } else {
        assert(u.drop_first() =~= s);
    }
}

impl RequiredEntries {
    /// Notes that a path is needed for a criterion.
    fn add_path(&mut self, path: &Vec<DeltaEdgeOrigin>, criteria_idx: usize)
        requires
            criteria_idx < 64,
        ensures
            forall|e: RequiredEntryView| #[trigger]
                final(self).has(e) == (old(self).has(e) || uses(edges::origins(path@), e)),
            forall|e: RequiredEntryView, i: int| #[trigger]
                final(self).has_for(e, i) == (old(self).has_for(e, i) || i == criteria_idx && uses(
                    edges::origins(path@),
                    e,
                )),
    {
        let ghost old_self = *self;
        let ghost o = edges::origins(path@);
        let mut j: usize = 0;
        while j < path.len()
            invariant
                criteria_idx < 64,
                o == edges::origins(path@),
                j <= path@.len(),
                forall|e: RequiredEntryView| #[trigger]
                    self.has(e) == (old_self.has(e) || exists|x: int|
                        0 <= x < j && needs(#[trigger] o[x], e)),
                forall|e: RequiredEntryView, i: int| #[trigger]
                    self.has_for(e, i) == (old_self.has_for(e, i) || i == criteria_idx && exists|
                        x: int,
                    | 0 <= x < j && needs(#[trigger] o[x], e)),
            decreases path@.len() - j,
        {
            let ghost before = *self;
            assert(o[j as int] == path@[j as int]@);
            match &path[j] {
                DeltaEdgeOrigin::Exemption { exemption_index } => {
                    self.add_entry(
                        RequiredEntry::Exemption { exemption_index: *exemption_index },
                        criteria_idx,
                    );
                },
                DeltaEdgeOrigin::FreshExemption { version } => {
                    self.add_entry(
                        RequiredEntry::FreshExemption { version: version.clone() },
                        criteria_idx,
                    );
                },
                DeltaEdgeOrigin::ImportedAudit { import_index, audit_index } => {
                    self.add_entry(
                        RequiredEntry::Audit {
                            import_index: *import_index,
                            audit_index: *audit_index,
                        },
                        criteria_idx,
                    );
                },
                DeltaEdgeOrigin::WildcardAudit { import_index, audit_index, publisher_index } => {
                    if let Some(import_index) = import_index {
                        self.add_entry(
                            RequiredEntry::WildcardAudit {
                                import_index: *import_index,
                                audit_index: *audit_index,
                            },
                            criteria_idx,
                        );
                    }
                    self.add_entry(
                        RequiredEntry::Publisher { publisher_index: *publisher_index },
                        criteria_idx,
                    );
                },
                DeltaEdgeOrigin::Trusted { publisher_index } => {
                    self.add_entry(
                        RequiredEntry::Publisher { publisher_index: *publisher_index },
                        criteria_idx,
                    );
                },
                DeltaEdgeOrigin::Unpublished { unpublished_index } => {
                    self.add_entry(
                        RequiredEntry::Unpublished { unpublished_index: *unpublished_index },
                        criteria_idx,
                    );
                },
                DeltaEdgeOrigin::StoredLocalAudit { audit_index, importable: _ } => {
                    self.add_entry(
                        RequiredEntry::LocalAudit { audit_index: *audit_index },
                        criteria_idx,
                    );
                },
            }
            proof {
                assert forall|e: RequiredEntryView| #[trigger]
                    self.has(e) == (before.has(e) || needs(o[j as int], e)) by {}
                assert forall|e: RequiredEntryView, i: int| #[trigger]
                    self.has_for(e, i) == (before.has_for(e, i) || i == criteria_idx && needs(
                        o[j as int],
                        e,
                    )) by {}
                assert forall|e: RequiredEntryView| (#[trigger] needs(o[j as int], e) || exists|
                    x: int,
                | 0 <= x < j && needs(#[trigger] o[x], e)) == (exists|x: int|
                    0 <= x < j + 1 && needs(#[trigger] o[x], e)) by {
                    if exists|x: int| 0 <= x < j + 1 && needs(#[trigger] o[x], e) {
                        let x = choose|x: int| 0 <= x < j + 1 && needs(#[trigger] o[x], e);
                        if x < j {
                            assert(needs(o[x], e));
                        }
                    }
                }
            }
            j = j + 1;
        }
    }
}

/// What the packages of one name ask of the store.
pub struct Demand {
    pub store: Store,
    pub mapper: CriteriaMapper,
    pub packages: Seq<Package>,
    pub requirements: Seq<CriteriaSet>,
    pub name: Seq<char>,
    pub mode: SearchMode,
}

impl Demand {
    /// Whether a package is one of those in question.
    pub open spec fn is_user(self, p: int) -> bool {
        0 <= p < self.packages.len() && self.packages[p].name@ == self.name
            && self.packages[p].third_party(self.store.config.policy)
    }

    /// Whether a criterion is to be proved for a package. Criteria that follow
    /// from others are not.
    pub open spec fn needs(self, p: int, i: int) -> bool {
        self.is_user(p) && self.requirements[p].has(i) && criteria::is_minimal(
            self.mapper,
            self.requirements[p],
            i,
        )
    }

    /// The edges of the audit graph.
    pub open spec fn edges(self) -> Seq<EdgeView> {
        audit_graph::store_edges(self.store, self.mapper, self.name, None)
    }

    /// The search for a proof.
    pub open spec fn query(self, p: int, i: int) -> Query {
        audit_graph::to_root(self.edges(), i, self.packages[p].version@, self.mode)
    }

    /// Whether there is no proof for all that is asked.
    pub open spec fn fails(self) -> bool {
        (exists|p: int| self.is_user(p)) && (audit_graph::store_conflicts(
            self.store,
            self.mapper,
            self.name,
            None,
        ).len() > 0 || exists|p: int, i: int| #[trigger]
            self.needs(p, i) && !self.query(p, i).reachable(None))
    }

    /// Whether `paths` holds a proof for each criterion of each package.
    pub open spec fn is_proof(self, paths: Map<(int, int), Seq<DeltaEdgeOriginView>>) -> bool {
        &&& forall|p: int, i: int| #[trigger] paths.dom().contains((p, i)) == self.needs(p, i)
        &&& forall|p: int, i: int| #[trigger]
            paths.dom().contains((p, i)) ==> self.query(p, i).can_find(paths[(p, i)])
    }
}

impl RequiredEntries {
    /// Whether the entries are those that the paths need, and their criteria
    /// those that they are needed for.
    pub open spec fn collects(&self, paths: Map<(int, int), Seq<DeltaEdgeOriginView>>) -> bool {
        &&& forall|e: RequiredEntryView| #[trigger] self.has(e) == is_used(paths, e)
        &&& forall|e: RequiredEntryView, i: int| #[trigger]
            self.has_for(e, i) == is_used_for(paths, e, i)
    }
}

/// Whether one of the paths needs an entry.
pub open spec fn is_used(
    paths: Map<(int, int), Seq<DeltaEdgeOriginView>>,
    e: RequiredEntryView,
) -> bool {
    exists|p: int, i: int| #[trigger] paths.dom().contains((p, i)) && uses(paths[(p, i)], e)
}

/// Whether one of the paths for a criterion needs an entry.
pub open spec fn is_used_for(
    paths: Map<(int, int), Seq<DeltaEdgeOriginView>>,
    e: RequiredEntryView,
    i: int,
) -> bool {
    exists|p: int| #[trigger] paths.dom().contains((p, i)) && uses(paths[(p, i)], e)
}

proof fn lemma_used_insert(
    paths: Map<(int, int), Seq<DeltaEdgeOriginView>>,
    p: int,
    i: int,
    path: Seq<DeltaEdgeOriginView>,
)
    requires
        !paths.dom().contains((p, i)),
    ensures
        forall|e: RequiredEntryView| #[trigger]
            is_used(paths.insert((p, i), path), e) == (is_used(paths, e) || uses(path, e)),
        forall|e: RequiredEntryView, x: int| #[trigger]
            is_used_for(paths.insert((p, i), path), e, x) == (is_used_for(paths, e, x) || x == i
                && uses(path, e)),
{
    let next = paths.insert((p, i), path);
    assert(next.dom().contains((p, i)));
    assert forall|e: RequiredEntryView| #[trigger]
        is_used(next, e) == (is_used(paths, e) || uses(path, e)) by {
        if is_used(paths, e) {
            let (q, x) = choose|q: int, x: int| #[trigger]
                paths.dom().contains((q, x)) && uses(paths[(q, x)], e);
            assert(next.dom().contains((q, x)) && uses(next[(q, x)], e));
        }
        if is_used(next, e) {
            let (q, x) = choose|q: int, x: int| #[trigger]
                next.dom().contains((q, x)) && uses(next[(q, x)], e);
            if q != p || x != i {
                assert(paths.dom().contains((q, x)) && uses(paths[(q, x)], e));
            }
        }
        if uses(path, e) {
            assert(uses(next[(p, i)], e));
        }
    }
    assert forall|e: RequiredEntryView, x: int| #[trigger]
        is_used_for(next, e, x) == (is_used_for(paths, e, x) || x == i && uses(path, e)) by {
        if is_used_for(paths, e, x) {
            let q = choose|q: int| #[trigger]
                paths.dom().contains((q, x)) && uses(paths[(q, x)], e);
            assert(next.dom().contains((q, x)) && uses(next[(q, x)], e));
        }
        if is_used_for(next, e, x) {
            let q = choose|q: int| #[trigger] next.dom().contains((q, x)) && uses(next[(q, x)], e);
            if q != p || x != i {
                assert(paths.dom().contains((q, x)) && uses(paths[(q, x)], e));
            }
        }
        if x == i && uses(path, e) {
            assert(uses(next[(p, i)], e));
        }
    }
}

/// Whether some third-party package has a name.
fn has_user(packages: &Vec<Package>, store: &Store, name: &str, Ghost(d): Ghost<Demand>) -> (r: bool)
    requires
        d.packages == packages@,
        d.store == *store,
        d.name == name@,
    ensures
        r == exists|p: int| d.is_user(p),
{
    let mut p: usize = 0;
    while p < packages.len()
        invariant
            d.packages == packages@,
            d.store == *store,
            d.name == name@,
            p <= packages@.len(),
            forall|x: int| 0 <= x < p ==> !d.is_user(x),
        decreases packages@.len() - p,
    {
        if text_eq(packages[p].name.as_str(), name) && packages[p].is_third_party(
            &store.config.policy,
        ) {
            assert(d.is_user(p as int));
            return true;
        }
        p = p + 1;
    }
    false
}

/// The entries of the store that are needed to vet the packages of one name.
/// `None` if they cannot all be vetted.
///
/// Nothing is needed for a name that no third-party package has. `search_mode`
/// controls how edges are chosen when searching for paths.
pub fn resolve_package_required_entries(
    packages: &Vec<Package>,
    criteria_mapper: &CriteriaMapper,
    requirements: &Vec<CriteriaSet>,
    store: &Store,
    package_name: &str,
    search_mode: SearchMode,
) -> (r: Option<RequiredEntries>)
    requires
        criteria_mapper.wf(),
        requirements@.len() == packages@.len(),
    ensures
        ({
            let d = Demand {
                store: *store,
                mapper: *criteria_mapper,
                packages: packages@,
                requirements: requirements@,
                name: package_name@,
                mode: search_mode,
            };
            match r {
                Some(entries) => !d.fails() && exists|
                    paths: Map<(int, int), Seq<DeltaEdgeOriginView>>,
                | #[trigger]
                    d.is_proof(paths) && entries.collects(paths),
                None => d.fails(),
            }
        }),
{
    let ghost d = Demand {
        store: *store,
        mapper: *criteria_mapper,
        packages: packages@,
        requirements: requirements@,
        name: package_name@,
        mode: search_mode,
    };
    let mut entries = RequiredEntries::new();
    let ghost mut paths = Map::<(int, int), Seq<DeltaEdgeOriginView>>::empty();
    if !has_user(packages, store, package_name, Ghost(d)) {
        proof {
            assert(d.is_proof(paths));
            assert(entries.collects(paths));
        }
        return Some(entries);
    }
    let audit_graph = match AuditGraph::build(store, criteria_mapper, package_name, None) {
        Ok(audit_graph) => audit_graph,
        Err(_) => {
            return None;
        },
    };
    let mut p: usize = 0;
    while p < packages.len()
        invariant
            criteria_mapper.wf(),
            requirements@.len() == packages@.len(),
            d == (Demand {
                store: *store,
                mapper: *criteria_mapper,
                packages: packages@,
                requirements: requirements@,
                name: package_name@,
                mode: search_mode,
            }),
            exists|p: int| d.is_user(p),
            audit_graph.wf(),
            audit_graph.models(d.edges()),
            p <= packages@.len(),
            entries.collects(paths),
            forall|q: int, i: int| #[trigger]
                paths.dom().contains((q, i)) == (q < p && d.needs(q, i)),
            forall|q: int, i: int| #[trigger]
                paths.dom().contains((q, i)) ==> d.query(q, i).reachable(None) && d.query(
                    q,
                    i,
                ).can_find(paths[(q, i)]),
        decreases packages@.len() - p,
    {
        let package = &packages[p];
        if text_eq(package.name.as_str(), package_name) && package.is_third_party(
            &store.config.policy,
        ) {
            assert(d.is_user(p as int));
            let required = &requirements[p];
            let indices = criteria_mapper.minimal_indices(required);
            proof {
                criteria::lemma_minimal(*criteria_mapper, *required);
            }
            let mut k: usize = 0;
            while k < indices.len()
                invariant
                    criteria_mapper.wf(),
                    requirements@.len() == packages@.len(),
                    d == (Demand {
                        store: *store,
                        mapper: *criteria_mapper,
                        packages: packages@,
                        requirements: requirements@,
                        name: package_name@,
                        mode: search_mode,
                    }),
                    p < packages@.len(),
                    d.is_user(p as int),
                    *package == packages@[p as int],
                    *required == requirements@[p as int],
                    audit_graph.wf(),
                    audit_graph.models(d.edges()),
                    k <= indices@.len(),
                    forall|x: int|
                        0 <= x < indices@.len() ==> d.needs(
                            p as int,
                            (#[trigger] indices@[x]) as int,
                        ),
                    forall|a: int, b: int|
                        0 <= a < b < indices@.len() ==> (#[trigger] indices@[a]) != (
                        #[trigger] indices@[b]),
                    entries.collects(paths),
                    forall|q: int, i: int| #[trigger]
                        paths.dom().contains((q, i)) == (q < p && d.needs(q, i) || q == p && exists|
                            x: int,
                        | 0 <= x < k && indices@[x] == i),
                    forall|q: int, i: int| #[trigger]
                        paths.dom().contains((q, i)) ==> d.query(q, i).reachable(None) && d.query(
                            q,
                            i,
                        ).can_find(paths[(q, i)]),
                decreases indices@.len() - k,
            {
                let criteria_idx: usize = indices[k];
                assert(d.needs(p as int, criteria_idx as int));
                match audit_graph.search(criteria_idx, &package.version, search_mode) {
                    Ok(path) => {
                        let ghost path_view = edges::origins(path@);
                        proof {
                            assert(!paths.dom().contains((p as int, criteria_idx as int)));
                            lemma_used_insert(paths, p as int, criteria_idx as int, path_view);
                        }
                        let ghost before = entries;
                        entries.add_path(&path, criteria_idx);
                        proof {
                            assert(before.collects(paths));
                            let next = paths.insert((p as int, criteria_idx as int), path_view);
                            assert forall|q: int, i: int| #[trigger]
                                next.dom().contains((q, i)) == (q < p && d.needs(q, i) || q == p
                                    && exists|x: int| 0 <= x < k + 1 && indices@[x] == i) by {
                                if next.dom().contains((q, i)) {
                                    if q == p && i == criteria_idx {
                                        assert(indices@[k as int] == i);
                                    } else {
                                        assert(paths.dom().contains((q, i)));
                                    }
                                } else {
                                    assert(!paths.dom().contains((q, i)));
                                }
                            }
                            assert forall|q: int, i: int| #[trigger]
                                next.dom().contains((q, i)) implies d.query(q, i).reachable(None)
                                && d.query(q, i).can_find(next[(q, i)]) by {
                                if !(q == p && i == criteria_idx) {
                                    assert(paths.dom().contains((q, i)));
                                }
                            }
                            assert(entries.collects(next));
                            paths = next;
                        }
                    },
                    Err(_) => {
                        proof {
                            assert(d.needs(p as int, criteria_idx as int) && !d.query(
                                p as int,
                                criteria_idx as int,
                            ).reachable(None));
                        }
                        return None;
                    },
                }
                k = k + 1;
            }
            proof {
                assert forall|q: int, i: int| #[trigger]
                    paths.dom().contains((q, i)) == (q < p + 1 && d.needs(q, i)) by {
                    if q == p && d.needs(q, i) {
                        let x = choose|x: int| 0 <= x < indices@.len() && indices@[x] == i;
                        assert(indices@[x] == i);
                    }
                }
            }
        }
        p = p + 1;
    }
    proof {
        assert(d.is_proof(paths));
        assert forall|p: int, i: int| #[trigger] d.needs(p, i) implies d.query(p, i).reachable(
            None,
        ) by {
            assert(paths.dom().contains((p, i)));
        }
    }
    Some(entries)
}

} // verus!
