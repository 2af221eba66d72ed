//! Which audits of a package would vet it.

use vstd::prelude::*;
use crate::audit_graph;
use crate::audit_graph::{EdgeView, SearchFailure};
use crate::edges::{DeltaEdgeOrigin, SearchMode};
use crate::order;
use crate::order::{key_le, key_of};
use crate::retain;
use crate::search;
use crate::version;
use crate::version::{
    clone_node, node_eq, semver_eq, version_eq, Version, VersionView, VetVersion, VetVersionView,
};

verus! {

/// How much changed between two versions.
#[derive(Debug, Clone, Copy, PartialEq, Eq, Structural)]
pub struct DiffStat {
    pub insertions: u64,
    pub deletions: u64,
    pub files_changed: u64,
}

impl DiffStat {
    /// The number of changed lines can be counted.
    pub open spec fn wf(&self) -> bool {
        self.insertions + self.deletions <= u64::MAX
    }

    /// The number of changed lines.
    pub open spec fn lines(&self) -> int {
        self.insertions + self.deletions
    }

    /// The number of changed lines.
    pub fn count(&self) -> (r: u64)
        requires
            self.wf(),
        ensures
            r == self.lines(),
    {
        self.insertions + self.deletions
    }
}

/// A change from one version to another. Without a first version it is the
/// whole of the second.
#[derive(Debug, PartialEq, Eq)]
pub struct Delta {
    pub from: Option<VetVersion>,
    pub to: VetVersion,
}

/// The contents of a [`Delta`].
#[verifier::ext_equal]
pub struct DeltaView {
    pub from: Option<VetVersionView>,
    pub to: VetVersionView,
}

impl View for Delta {
    type V = DeltaView;

    open spec fn view(&self) -> DeltaView {
        DeltaView { from: version::node(self.from), to: self.to@ }
    }
}

/// A change that is suggested for an audit.
#[derive(Debug, PartialEq, Eq)]
pub struct DiffRecommendation {
    pub from: Option<VetVersion>,
    pub to: VetVersion,
    pub diffstat: DiffStat,
}

/// The contents of a [`DiffRecommendation`].
#[verifier::ext_equal]
pub struct DiffRecommendationView {
    pub from: Option<VetVersionView>,
    pub to: VetVersionView,
    pub diffstat: DiffStat,
}

impl View for DiffRecommendation {
    type V = DiffRecommendationView;

    open spec fn view(&self) -> DiffRecommendationView {
        DiffRecommendationView {
            from: version::node(self.from),
            to: self.to@,
            diffstat: self.diffstat,
        }
    }
}

impl Clone for DiffRecommendation {
    fn clone(&self) -> (r: DiffRecommendation)
        ensures
            r@ == self@,
    {
        DiffRecommendation {
            from: clone_node(&self.from),
            to: self.to.clone(),
            diffstat: self.diffstat,
        }
    }
}

/// Whether two recommendations are the same.
pub fn recommendation_eq(a: &DiffRecommendation, b: &DiffRecommendation) -> (r: bool)
    ensures
        r == (a@ == b@),
{
    node_eq(&a.from, &b.from) && version_eq(&a.to, &b.to) && a.diffstat == b.diffstat
}

/// The contents of a list of versions.
pub open spec fn nodes(s: Seq<Option<VetVersion>>) -> Seq<Option<VetVersionView>> {
    s.map_values(|v: Option<VetVersion>| version::node(v))
}

/// The contents of a list of published versions.
pub open spec fn semvers(s: Seq<Version>) -> Seq<VersionView> {
    s.map_values(|v: Version| v@)
}

/// What failed for a package, and what is known of it.
pub struct Shortfall {
    /// The version of the package.
    pub version: VetVersionView,
    /// The versions that can be reached from the root and from the package, for
    /// each criterion that failed.
    pub failures: Seq<(Seq<Option<VetVersionView>>, Seq<Option<VetVersionView>>)>,
    /// The versions that were published, if that is known.
    pub known: Option<Seq<VersionView>>,
}

impl Shortfall {
    /// Whether the sources of a version can be had. There always are for an
    /// empty package. Of Git revisions there are only for the package itself,
    /// and otherwise for what was published. If that is not known, all versions
    /// count.
    pub open spec fn has_sources(self, v: Option<VetVersionView>) -> bool {
        match v {
            None => true,
            Some(v) => if v.git_rev is Some {
                v == self.version
            } else {
                match self.known {
                    Some(known) => known.contains(v.semver),
                    None => true,
                }
            },
        }
    }

    /// Whether a version is reached from the root in all failures.
    pub open spec fn common_root(self, v: Option<VetVersionView>) -> bool {
        forall|k: int| 0 < k < self.failures.len() ==> (#[trigger] self.failures[k]).0.contains(v)
    }

    /// Whether a version is reached from the package in all failures.
    pub open spec fn common_target(self, v: Option<VetVersionView>) -> bool {
        forall|k: int| 0 < k < self.failures.len() ==> (#[trigger] self.failures[k]).1.contains(v)
    }

    /// The versions with sources that are reached from the root in all failures.
    pub open spec fn from_root(self) -> Seq<Option<VetVersionView>> {
        let first = self.failures[0].0;
        retain::kept(
            first,
            Seq::new(first.len(), |j: int| self.has_sources(first[j]) && self.common_root(first[j])),
        )
    }

    /// The versions with sources that are reached from the package in all
    /// failures.
    pub open spec fn from_target(self) -> Seq<Option<VetVersionView>> {
        let first = self.failures[0].1;
        retain::kept(
            first,
            Seq::new(
                first.len(),
                |j: int| self.has_sources(first[j]) && self.common_target(first[j]),
            ),
        )
    }

    /// The published version that a Git revision is closest to: the largest one
    /// that is not larger. If nothing is known, the version itself counts.
    pub open spec fn is_closest_published(self, v: Option<VersionView>) -> bool {
        match self.known {
            None => v == Some(self.version.semver),
            Some(known) => match v {
                Some(v) => known.contains(v) && order::lex_le(
                    version::version_key(v),
                    version::version_key(self.version.semver),
                ) && forall|w: VersionView| #[trigger]
                    known.contains(w) && order::lex_le(
                        version::version_key(w),
                        version::version_key(self.version.semver),
                    ) ==> order::lex_le(version::version_key(w), version::version_key(v)),
                None => forall|w: VersionView| #[trigger]
                    known.contains(w) ==> !order::lex_le(
                        version::version_key(w),
                        version::version_key(self.version.semver),
                    ),
            },
        }
    }
}

/// The last version in a sorted list that comes before another.
pub open spec fn closest_below(
    s: Seq<Option<VetVersionView>>,
    v: Option<VetVersionView>,
) -> Option<Option<VetVersionView>>
    decreases s.len(),
{
    if s.len() == 0 {
        None
    } else if order::lex_lt(version::node_key(s.last()), version::node_key(v)) {
        Some(s.last())
    } else {
        closest_below(s.drop_last(), v)
    }
}

/// The first version in a sorted list that does not come before another.
pub open spec fn closest_above(
    s: Seq<Option<VetVersionView>>,
    v: Option<VetVersionView>,
) -> Option<Option<VetVersionView>>
    decreases s.len(),
{
    if s.len() == 0 {
        None
    } else if order::lex_lt(version::node_key(s[0]), version::node_key(v)) {
        closest_above(s.drop_first(), v)
    } else {
        Some(s[0])
    }
}

/// The changes to a version from the versions closest to it.
pub open spec fn deltas_to(roots: Seq<Option<VetVersionView>>, dest: VetVersionView) -> Seq<DeltaView> {
    let below = closest_below(roots, Some(dest));
    let above = closest_above(roots, Some(dest));
    (match below {
        Some(from) => seq![DeltaView { from, to: dest }],
        None => Seq::empty(),
    }) + (match above {
        Some(from) => seq![DeltaView { from, to: dest }],
        None => Seq::empty(),
    })
}

/// The changes to each version of a list from the versions closest to it.
pub open spec fn candidates(
    roots: Seq<Option<VetVersionView>>,
    targets: Seq<Option<VetVersionView>>,
) -> Seq<DeltaView>
    decreases targets.len(),
{
    if targets.len() == 0 {
        Seq::empty()
    } else {
        candidates(roots, targets.drop_last()) + (match targets.last() {
            Some(dest) => deltas_to(roots, dest),
            None => Seq::empty(),
        })
    }
}

/// A sorted list with one more version.
pub open spec fn insert_node(s: Seq<Option<VetVersionView>>, v: Option<VetVersionView>) -> Seq<
    Option<VetVersionView>,
>
    decreases s.len(),
{
    if s.len() == 0 || order::lex_le(version::node_key(s.last()), version::node_key(v)) {
        s.push(v)
    } else {
        insert_node(s.drop_last(), v).push(s.last())
    }
}

/// A list without a version.
pub open spec fn without(s: Seq<Option<VetVersionView>>, v: Option<VetVersionView>) -> Seq<
    Option<VetVersionView>,
> {
    retain::kept(s, differs(s, v))
}

/// Which versions of a list are not a given one.
pub open spec fn differs(s: Seq<Option<VetVersionView>>, v: Option<VetVersionView>) -> Seq<bool> {
    Seq::new(s.len(), |j: int| s[j] != v)
}

/// What to diff before a change is recommended.
#[derive(Debug)]
pub struct DeltaPlan {
    /// The changes to choose from.
    pub candidates: Vec<Delta>,
    /// The change that is to be audited as well.
    pub extra: Option<Delta>,
}

/// The contents of an optional change.
pub open spec fn opt_delta(d: Option<Delta>) -> Option<DeltaView> {
    match d {
        Some(d) => Some(d@),
        None => None,
    }
}

/// The contents of a list of changes.
pub open spec fn deltas(s: Seq<Delta>) -> Seq<DeltaView> {
    s.map_values(|d: Delta| d@)
}

impl Shortfall {
    /// Whether a plan is right, given the published version closest to a Git
    /// revision.
    ///
    /// For a Git revision the published version is to be audited first, unless
    /// it was: then it takes the place of the revision, and the change from it
    /// to the revision is extra.
    pub open spec fn is_plan_with(self, published: Option<VetVersionView>, plan: DeltaPlan) -> bool {
        let roots = self.from_root();
        let targets = self.from_target();
        if self.version.git_rev is Some && !roots.contains(published) {
            let rest = without(targets, Some(self.version));
            if rest.contains(published) {
                deltas(plan.candidates@) == candidates(roots, rest) && plan.extra is None
            } else {
                deltas(plan.candidates@) == candidates(roots, insert_node(rest, published))
                    && opt_delta(plan.extra) == Some(
                    DeltaView { from: published, to: self.version },
                )
            }
        } else {
            deltas(plan.candidates@) == candidates(roots, targets) && plan.extra is None
        }
    }

    /// Whether a plan is right.
    pub open spec fn is_plan(self, plan: DeltaPlan) -> bool {
        if self.version.git_rev is Some {
            exists|v: Option<VersionView>| #[trigger]
                self.is_closest_published(v) && self.is_plan_with(
                    match v {
                        Some(semver) => Some(VetVersionView { semver, git_rev: None }),
                        None => None,
                    },
                    plan,
                )
        } else {
            self.is_plan_with(None, plan)
        }
    }
}

/// The versions that failures list.
pub open spec fn failure_nodes(s: Seq<&SearchFailure>) -> Seq<
    (Seq<Option<VetVersionView>>, Seq<Option<VetVersionView>>),
> {
    s.map_values(
        |f: &SearchFailure| (nodes(f.reachable_from_root@), nodes(f.reachable_from_target@)),
    )
}

/// What failed for a package, and what is known of it.
pub open spec fn shortfall(
    version: VetVersion,
    failures: Seq<&SearchFailure>,
    known: Option<&Vec<Version>>,
) -> Shortfall {
    Shortfall {
        version: version@,
        failures: failure_nodes(failures),
        known: match known {
            Some(v) => Some(semvers(v@)),
            None => None,
        },
    }
}

/// Whether a list holds a version.
pub fn nodes_contain(list: &Vec<Option<VetVersion>>, v: &Option<VetVersion>) -> (r: bool)
    ensures
        r == nodes(list@).contains(version::node(*v)),
{
    let mut i: usize = 0;
    while i < list.len()
        invariant
            i <= list@.len(),
            forall|x: int| 0 <= x < i ==> nodes(list@)[x] != version::node(*v),
        decreases list@.len() - i,
    {
        assert(nodes(list@)[i as int] == version::node(list@[i as int]));
        if node_eq(&list[i], v) {
            assert(nodes(list@).contains(nodes(list@)[i as int]));
            return true;
        }
        i = i + 1;
    }
    false
}

/// Whether a list holds a published version.
fn semvers_contain(list: &Vec<Version>, v: &Version) -> (r: bool)
    ensures
        r == semvers(list@).contains(v@),
{
    let mut i: usize = 0;
    while i < list.len()
        invariant
            i <= list@.len(),
            forall|x: int| 0 <= x < i ==> semvers(list@)[x] != v@,
        decreases list@.len() - i,
    {
        assert(semvers(list@)[i as int] == list@[i as int]@);
        if semver_eq(&list[i], v) {
            assert(semvers(list@).contains(semvers(list@)[i as int]));
            return true;
        }
        i = i + 1;
    }
    false
}

/// Whether the sources of a version can be had.
fn has_sources(
    v: &Option<VetVersion>,
    package_version: &VetVersion,
    known: Option<&Vec<Version>>,
    Ghost(s): Ghost<Shortfall>,
) -> (r: bool)
    requires
        s.version == package_version@,
        s.known == match known {
            Some(v) => Some(semvers(v@)),
            None => None,
        },
    ensures
        r == s.has_sources(version::node(*v)),
{
    match v {
        None => true,
        Some(v) => if v.git_rev.is_some() {
            version_eq(v, package_version)
        } else {
            match known {
                Some(list) => semvers_contain(list, &v.semver),
                None => true,
            }
        },
    }
}

/// Whether all failures but the first list a version, on the side of the root
/// or on that of the package.
fn is_common(
    failures: &Vec<&SearchFailure>,
    v: &Option<VetVersion>,
    roots: bool,
    Ghost(s): Ghost<Shortfall>,
) -> (r: bool)
    requires
        s.failures == failure_nodes(failures@),
    ensures
        r == if roots {
            s.common_root(version::node(*v))
        } else {
            s.common_target(version::node(*v))
        },
{
    let mut k: usize = 1;
    while k < failures.len()
        invariant
            s.failures == failure_nodes(failures@),
            1 <= k,
            forall|x: int|
                0 < x < k && x < failures@.len() ==> if roots {
                    (#[trigger] s.failures[x]).0.contains(version::node(*v))
                } else {
                    s.failures[x].1.contains(version::node(*v))
                },
        decreases failures@.len() - k,
    {
        let failure = failures[k];
        assert(s.failures[k as int] == (
            nodes(failure.reachable_from_root@),
            nodes(failure.reachable_from_target@),
        ));
        let found = if roots {
            nodes_contain(&failure.reachable_from_root, v)
        } else {
            nodes_contain(&failure.reachable_from_target, v)
        };
        if !found {
            return false;
        }
        k = k + 1;
    }
    true
}

/// The versions with sources that all failures list.
fn common_nodes(
    package_version: &VetVersion,
    failures: &Vec<&SearchFailure>,
    known: Option<&Vec<Version>>,
    roots: bool,
    Ghost(s): Ghost<Shortfall>,
) -> (r: Vec<Option<VetVersion>>)
    requires
        failures@.len() > 0,
        s == shortfall(*package_version, failures@, known),
    ensures
        nodes(r@) == if roots {
            s.from_root()
        } else {
            s.from_target()
        },
{
    let first = if roots {
        &failures[0].reachable_from_root
    } else {
        &failures[0].reachable_from_target
    };
    let ghost l = nodes(first@);
    let ghost flags = Seq::new(
        l.len(),
        |j: int|
            s.has_sources(l[j]) && if roots {
                s.common_root(l[j])
            } else {
                s.common_target(l[j])
            },
    );
    let mut r: Vec<Option<VetVersion>> = Vec::new();
    let mut j: usize = 0;
    assert(nodes(r@) =~= retain::kept(l.take(0), flags));
    while j < first.len()
        invariant
            s == shortfall(*package_version, failures@, known),
            l == nodes(first@),
            flags == Seq::new(
                l.len(),
                |j: int|
                    s.has_sources(l[j]) && if roots {
                        s.common_root(l[j])
                    } else {
                        s.common_target(l[j])
                    },
            ),
            j <= first@.len(),
            nodes(r@) == retain::kept(l.take(j as int), flags),
        decreases first@.len() - j,
    {
        let v = &first[j];
        let ghost before = r@;
        proof {
            assert(l.take(j + 1).drop_last() =~= l.take(j as int));
            assert(l.take(j + 1).last() == version::node(*v));
        }
        if has_sources(v, package_version, known, Ghost(s)) && is_common(
            failures,
            v,
            roots,
            Ghost(s),
        ) {
            r.push(clone_node(v));
            assert(nodes(r@) =~= nodes(before).push(version::node(*v)));
        }
        j = j + 1;
    }
    proof {
        assert(l.take(j as int) =~= l);
        assert(s.failures[0] == failure_nodes(failures@)[0]);
        if roots {
            assert(flags =~= Seq::new(
                l.len(),
                |j: int| s.has_sources(l[j]) && s.common_root(l[j]),
            ));
        } else {
            assert(flags =~= Seq::new(
                l.len(),
                |j: int| s.has_sources(l[j]) && s.common_target(l[j]),
            ));
        }
    }
    r
}

/// The largest published version that is not larger than a version.
fn closest_published(
    package_version: &VetVersion,
    known: Option<&Vec<Version>>,
    Ghost(s): Ghost<Shortfall>,
) -> (r: Option<Version>)
    requires
        s.version == package_version@,
        s.known == match known {
            Some(v) => Some(semvers(v@)),
            None => None,
        },
    ensures
        s.is_closest_published(
            match r {
                Some(v) => Some(v@),
                None => None,
            },
        ),
{
    let list = match known {
        Some(list) => list,
        None => {
            return Some(package_version.semver.clone());
        },
    };
    let ghost l = semvers(list@);
    let bound = key_of(&package_version.semver);
    let mut best: Option<usize> = None;
    let mut i: usize = 0;
    while i < list.len()
        invariant
            l == semvers(list@),
            bound@ == version::version_key(package_version.semver@),
            i <= list@.len(),
            match best {
                Some(b) => b < i && order::lex_le(version::version_key(l[b as int]), bound@)
                    && forall|x: int|
                    0 <= x < i && order::lex_le(version::version_key(#[trigger] l[x]), bound@)
                        ==> order::lex_le(
                        version::version_key(l[x]),
                        version::version_key(l[b as int]),
                    ),
                None => forall|x: int|
                    0 <= x < i ==> !order::lex_le(version::version_key(#[trigger] l[x]), bound@),
            },
        decreases list@.len() - i,
    {
        let key = key_of(&list[i]);
        assert(l[i as int] == list@[i as int]@);
        if key_le(&key, &bound) {
            match best {
                None => {
                    proof {
                        order::lemma_lex_refl(key@);
                    }
                    best = Some(i);
                },
                Some(b) => {
                    let best_key = key_of(&list[b]);
                    assert(l[b as int] == list@[b as int]@);
                    if !key_le(&key, &best_key) {
                        proof {
                            order::lemma_lex_refl(key@);
                            order::lemma_lex_total(best_key@, key@);
                            assert forall|x: int|
                                0 <= x < i + 1 && order::lex_le(
                                    version::version_key(#[trigger] l[x]),
                                    bound@,
                                ) implies order::lex_le(
                                version::version_key(l[x]),
                                version::version_key(l[i as int]),
                            ) by {
                                if x < i {
                                    order::lemma_lex_trans(
                                        version::version_key(l[x]),
                                        best_key@,
                                        key@,
                                    );
                                }
                            }
                        }
                        best = Some(i);
                    }
                },
            }
        }
        i = i + 1;
    }
    match best {
        Some(b) => {
            proof {
                assert(l[b as int] == list@[b as int]@);
                assert(l.contains(l[b as int]));
                assert forall|w: VersionView| #[trigger]
                    l.contains(w) && order::lex_le(
                        version::version_key(w),
                        bound@,
                    ) implies order::lex_le(
                    version::version_key(w),
                    version::version_key(l[b as int]),
                ) by {
                    let x = choose|x: int| 0 <= x < l.len() && l[x] == w;
                    assert(order::lex_le(version::version_key(l[x]), bound@));
                }
            }
            Some(list[b].clone())
        },
        None => {
            proof {
                assert forall|w: VersionView| #[trigger] l.contains(w) implies !order::lex_le(
                    version::version_key(w),
                    bound@,
                ) by {
                    let x = choose|x: int| 0 <= x < l.len() && l[x] == w;
                    assert(!order::lex_le(version::version_key(l[x]), bound@));
                }
            }
            None
        },
    }
}

/// A list without a version.
fn remove_node(list: &Vec<Option<VetVersion>>, v: &Option<VetVersion>) -> (r: Vec<Option<VetVersion>>)
    ensures
        nodes(r@) == without(nodes(list@), version::node(*v)),
{
    let ghost l = nodes(list@);
    let ghost flags = differs(l, version::node(*v));
    let mut r: Vec<Option<VetVersion>> = Vec::new();
    let mut j: usize = 0;
    assert(nodes(r@) =~= retain::kept(l.take(0), flags));
    while j < list.len()
        invariant
            l == nodes(list@),
            flags == differs(l, version::node(*v)),
            j <= list@.len(),
            nodes(r@) == retain::kept(l.take(j as int), flags),
        decreases list@.len() - j,
    {
        let ghost before = r@;
        proof {
            assert(l.take(j + 1).drop_last() =~= l.take(j as int));
            assert(l.take(j + 1).last() == version::node(list@[j as int]));
        }
        if !node_eq(&list[j], v) {
            r.push(clone_node(&list[j]));
            assert(nodes(r@) =~= nodes(before).push(version::node(list@[j as int])));
        }
        j = j + 1;
    }
    assert(l.take(j as int) =~= l);
    r
}

/// Puts a version in its place in a sorted list.
fn add_node(list: &mut Vec<Option<VetVersion>>, v: Option<VetVersion>)
    ensures
        nodes(final(list)@) == insert_node(nodes(old(list)@), version::node(v)),
{
    let ghost s = nodes(list@);
    let ghost n = version::node(v);
    let key = key_of(&v);
    let mut i: usize = list.len();
    proof {
        assert(s.take(i as int) =~= s);
        assert(insert_node(s, n) =~= insert_node(s.take(i as int), n) + s.skip(i as int));
    }
    while i > 0
        invariant
            s == nodes(list@),
            n == version::node(v),
            key@ == version::node_key(n),
            i <= list@.len(),
            insert_node(s, n) == insert_node(s.take(i as int), n) + s.skip(i as int),
        ensures
            i <= list@.len(),
            insert_node(s, n) == s.take(i as int).push(n) + s.skip(i as int),
        decreases i,
    {
        let prev = key_of(&list[i - 1]);
        assert(s.take(i as int).last() == version::node(list@[i - 1]));
        if key_le(&prev, &key) {
            break;
        }
        proof {
            assert(s.take(i as int).drop_last() =~= s.take(i - 1));
            assert(insert_node(s.take(i - 1), n).push(s[i - 1]) + s.skip(i as int)
                =~= insert_node(s.take(i - 1), n) + s.skip(i - 1));
        }
        i = i - 1;
    }
    list.insert(i, v);
    assert(nodes(list@) =~= s.take(i as int).push(n) + s.skip(i as int));
}

/// The last version in a sorted list that comes before another.
fn find_below(list: &Vec<Option<VetVersion>>, v: &VetVersion) -> (r: Option<Option<VetVersion>>)
    ensures
        match r {
            Some(x) => closest_below(nodes(list@), Some(v@)) == Some(version::node(x)),
            None => closest_below(nodes(list@), Some(v@)) is None,
        },
{
    let ghost s = nodes(list@);
    let target: Option<VetVersion> = Some(v.clone());
    let key = key_of(&target);
    let mut i: usize = list.len();
    assert(s.take(i as int) =~= s);
    while i > 0
        invariant
            s == nodes(list@),
            key@ == version::node_key(Some(v@)),
            i <= list@.len(),
            closest_below(s, Some(v@)) == closest_below(s.take(i as int), Some(v@)),
        decreases i,
    {
        let x = key_of(&list[i - 1]);
        assert(s.take(i as int).last() == version::node(list@[i - 1]));
        if !key_le(&key, &x) {
            return Some(clone_node(&list[i - 1]));
        }
        assert(s.take(i as int).drop_last() =~= s.take(i - 1));
        i = i - 1;
    }
    None
}

/// The first version in a sorted list that does not come before another.
fn find_above(list: &Vec<Option<VetVersion>>, v: &VetVersion) -> (r: Option<Option<VetVersion>>)
    ensures
        match r {
            Some(x) => closest_above(nodes(list@), Some(v@)) == Some(version::node(x)),
            None => closest_above(nodes(list@), Some(v@)) is None,
        },
{
    let ghost s = nodes(list@);
    let target: Option<VetVersion> = Some(v.clone());
    let key = key_of(&target);
    let mut i: usize = 0;
    assert(s.skip(0) =~= s);
    while i < list.len()
        invariant
            s == nodes(list@),
            key@ == version::node_key(Some(v@)),
            i <= list@.len(),
            closest_above(s, Some(v@)) == closest_above(s.skip(i as int), Some(v@)),
        decreases list@.len() - i,
    {
        let x = key_of(&list[i]);
        assert(s.skip(i as int)[0] == version::node(list@[i as int]));
        if key_le(&key, &x) {
            return Some(clone_node(&list[i]));
        }
        assert(s.skip(i as int).drop_first() =~= s.skip(i + 1));
        i = i + 1;
    }
    None
}

/// The changes to each version of a list from the versions closest to it.
fn list_candidates(roots: &Vec<Option<VetVersion>>, targets: &Vec<Option<VetVersion>>) -> (r: Vec<
    Delta,
>)
    ensures
        deltas(r@) == candidates(nodes(roots@), nodes(targets@)),
{
    let ghost a = nodes(roots@);
    let ghost b = nodes(targets@);
    let mut r: Vec<Delta> = Vec::new();
    let mut j: usize = 0;
    assert(deltas(r@) =~= candidates(a, b.take(0)));
    while j < targets.len()
        invariant
            a == nodes(roots@),
            b == nodes(targets@),
            j <= targets@.len(),
            deltas(r@) == candidates(a, b.take(j as int)),
        decreases targets@.len() - j,
    {
        let ghost before = deltas(r@);
        proof {
            assert(b.take(j + 1).drop_last() =~= b.take(j as int));
            assert(b.take(j + 1).last() == version::node(targets@[j as int]));
        }
        if let Some(dest) = &targets[j] {
            if let Some(from) = find_below(roots, dest) {
                r.push(Delta { from, to: dest.clone() });
            }
            if let Some(from) = find_above(roots, dest) {
                r.push(Delta { from, to: dest.clone() });
            }
            assert(deltas(r@) =~= before + deltas_to(a, dest@));
        } else {
            assert(deltas(r@) =~= candidates(a, b.take(j + 1)));
        }
        j = j + 1;
    }
    assert(b.take(j as int) =~= b);
    r
}

/// What to diff for a package, given how it failed and which versions were
/// published. `None` if nothing failed.
pub fn plan_delta(
    package_version: &VetVersion,
    failures: &Vec<&SearchFailure>,
    known_versions: Option<&Vec<Version>>,
) -> (r: Option<DeltaPlan>)
    ensures
        match r {
            Some(plan) => failures@.len() > 0 && shortfall(
                *package_version,
                failures@,
                known_versions,
            ).is_plan(plan),
            None => failures@.len() == 0,
        },
{
    if failures.len() == 0 {
        return None;
    }
    let ghost s = shortfall(*package_version, failures@, known_versions);
    let roots = common_nodes(package_version, failures, known_versions, true, Ghost(s));
    let targets = common_nodes(package_version, failures, known_versions, false, Ghost(s));
    if package_version.git_rev.is_some() {
        let closest = closest_published(package_version, known_versions, Ghost(s));
        let ghost v = match &closest {
            Some(v) => Some(v@),
            None => None,
        };
        let published: Option<VetVersion> = match closest {
            Some(semver) => Some(VetVersion { semver, git_rev: None }),
            None => None,
        };
        let ghost p = match v {
            Some(semver) => Some(VetVersionView { semver, git_rev: None }),
            None => None,
        };
        assert(version::node(published) == p);
        if !nodes_contain(&roots, &published) {
            let mut rest = remove_node(&targets, &Some(package_version.clone()));
            if nodes_contain(&rest, &published) {
                let plan = DeltaPlan { candidates: list_candidates(&roots, &rest), extra: None };
                assert(s.is_closest_published(v) && s.is_plan_with(p, plan));
                return Some(plan);
            }
            add_node(&mut rest, clone_node(&published));
            let plan = DeltaPlan {
                candidates: list_candidates(&roots, &rest),
                extra: Some(Delta { from: published, to: package_version.clone() }),
            };
            assert(s.is_closest_published(v) && s.is_plan_with(p, plan));
            return Some(plan);
        }
        let plan = DeltaPlan { candidates: list_candidates(&roots, &targets), extra: None };
        assert(s.is_closest_published(v) && s.is_plan_with(p, plan));
        return Some(plan);
    }
    let plan = DeltaPlan { candidates: list_candidates(&roots, &targets), extra: None };
    assert(s.is_plan_with(None, plan));
    Some(plan)
}

/// The dummy recommendation for a package of which nothing failed.
pub open spec fn empty_recommendation(v: VetVersionView) -> DiffRecommendationView {
    DiffRecommendationView {
        from: Some(v),
        to: v,
        diffstat: DiffStat { insertions: 0, deletions: 0, files_changed: 0 },
    }
}

/// The recommendations for the changes that could be diffed.
pub open spec fn diffed(s: Seq<DeltaView>, stats: Seq<Option<DiffStat>>) -> Seq<DiffRecommendationView>
    decreases s.len(),
{
    if s.len() == 0 {
        Seq::empty()
    } else {
        let rest = diffed(s.drop_last(), stats);
        match stats[s.len() - 1] {
            Some(diffstat) => rest.push(
                DiffRecommendationView { from: s.last().from, to: s.last().to, diffstat },
            ),
            None => rest,
        }
    }
}

/// The first of the recommendations with the fewest lines.
pub open spec fn smallest(s: Seq<DiffRecommendationView>) -> Option<DiffRecommendationView>
    decreases s.len(),
{
    if s.len() == 0 {
        None
    } else {
        match smallest(s.drop_last()) {
            Some(best) => if s.last().diffstat.lines() < best.diffstat.lines() {
                Some(s.last())
            } else {
                Some(best)
            },
            None => Some(s.last()),
        }
    }
}

/// The contents of an optional recommendation.
pub open spec fn opt_recommendation(d: Option<DiffRecommendation>) -> Option<DiffRecommendationView> {
    match d {
        Some(d) => Some(d@),
        None => None,
    }
}

/// The recommendation for a change, if it could be diffed.
pub open spec fn with_stat(d: Option<DeltaView>, stat: Option<DiffStat>) -> Option<
    DiffRecommendationView,
> {
    match (d, stat) {
        (Some(d), Some(diffstat)) => Some(
            DiffRecommendationView { from: d.from, to: d.to, diffstat },
        ),
        _ => None,
    }
}

/// Whether the lines of all diffs can be counted.
pub open spec fn stats_wf(stats: Seq<Option<DiffStat>>) -> bool {
    forall|j: int| 0 <= j < stats.len() && (#[trigger] stats[j]) is Some ==> stats[j]->0.wf()
}

/// The recommendation for a package of which nothing failed: to change nothing.
pub fn recommend_nothing(package_version: &VetVersion) -> (r: DiffRecommendation)
    ensures
        r@ == empty_recommendation(package_version@),
{
    DiffRecommendation {
        from: Some(package_version.clone()),
        to: package_version.clone(),
        diffstat: DiffStat { insertions: 0, deletions: 0, files_changed: 0 },
    }
}

/// Chooses the smallest of the changes of a plan, given the diffs of those that
/// could be diffed. `None` if none could.
pub fn recommend_delta(
    plan: &DeltaPlan,
    diffstats: &Vec<Option<DiffStat>>,
    extra_diffstat: Option<DiffStat>,
) -> (r: Option<(DiffRecommendation, Option<DiffRecommendation>)>)
    requires
        diffstats@.len() == plan.candidates@.len(),
        stats_wf(diffstats@),
    ensures
        match r {
            Some((best, extra)) => smallest(diffed(deltas(plan.candidates@), diffstats@)) == Some(
                best@,
            ) && opt_recommendation(extra) == with_stat(opt_delta(plan.extra), extra_diffstat),
            None => smallest(diffed(deltas(plan.candidates@), diffstats@)) is None,
        },
{
    let ghost d = deltas(plan.candidates@);
    let ghost all = diffed(d, diffstats@);
    let mut best: Option<DiffRecommendation> = None;
    let mut i: usize = 0;
    assert(opt_recommendation(best) == smallest(diffed(d.take(0), diffstats@)));
    while i < plan.candidates.len()
        invariant
            diffstats@.len() == plan.candidates@.len(),
            stats_wf(diffstats@),
            d == deltas(plan.candidates@),
            i <= plan.candidates@.len(),
            opt_recommendation(best) == smallest(diffed(d.take(i as int), diffstats@)),
            best is Some ==> best->0.diffstat.wf(),
        decreases plan.candidates@.len() - i,
    {
        proof {
            assert(d.take(i + 1).drop_last() =~= d.take(i as int));
            assert(d.take(i + 1).last() == plan.candidates@[i as int]@);
        }
        if let Some(diffstat) = diffstats[i] {
            assert(diffstats@[i as int] is Some);
            let delta = &plan.candidates[i];
            let next = DiffRecommendation {
                from: clone_node(&delta.from),
                to: delta.to.clone(),
                diffstat,
            };
            proof {
                let s = diffed(d.take(i + 1), diffstats@);
                assert(s.drop_last() =~= diffed(d.take(i as int), diffstats@));
                assert(s.last() == next@);
            }
            let better = match &best {
                Some(b) => diffstat.count() < b.diffstat.count(),
                None => true,
            };
            if better {
                best = Some(next);
            }
        }
        i = i + 1;
    }
    assert(d.take(i as int) =~= d);
    match best {
        Some(best) => {
            let extra = match (&plan.extra, extra_diffstat) {
                (Some(delta), Some(diffstat)) => Some(
                    DiffRecommendation {
                        from: clone_node(&delta.from),
                        to: delta.to.clone(),
                        diffstat,
                    },
                ),
                _ => None,
            };
            Some((best, extra))
        },
        None => None,
    }
}

/// Where no proof is found, the root is reached from itself and not from the
/// package, so every change that is planned leads to a version.
pub proof fn law_failures_separate(
    s: Seq<EdgeView>,
    criteria_idx: int,
    version: VetVersionView,
    mode: SearchMode,
    failure: SearchFailure,
)
    requires
        audit_graph::is_search_result(
            s,
            criteria_idx,
            version,
            mode,
            Err::<Vec<DeltaEdgeOrigin>, SearchFailure>(failure),
        ),
    ensures
        nodes(failure.reachable_from_root@).contains(None),
        !nodes(failure.reachable_from_target@).contains(None),
        nodes(failure.reachable_from_target@).contains(Some(version)),
        !nodes(failure.reachable_from_root@).contains(Some(version)),
{
    let to_root = audit_graph::to_root(s, criteria_idx, version, mode);
    let to_target = audit_graph::to_target(s, criteria_idx, version, mode);
    search::lemma_start_reachable(to_root);
    search::lemma_start_reachable(to_target);
    lemma_listed(failure.reachable_from_root@, None);
    lemma_listed(failure.reachable_from_root@, Some(version));
    lemma_listed(failure.reachable_from_target@, None);
    lemma_listed(failure.reachable_from_target@, Some(version));
    assert(to_target.reachable(None));
    assert(to_root.reachable(Some(version)));
    assert(!to_root.reachable(None));
    assert(!to_target.reachable(Some(version)));
}

/// A version is listed exactly if the contents of the list hold it.
pub proof fn lemma_listed(s: Seq<Option<VetVersion>>, v: Option<VetVersionView>)
    ensures
        search::version_listed(s, v) == nodes(s).contains(v),
{
    if search::version_listed(s, v) {
        let i = choose|i: int| 0 <= i < s.len() && version::node(#[trigger] s[i]) == v;
        assert(nodes(s)[i] == v);
    }
    if nodes(s).contains(v) {
        let i = choose|i: int| 0 <= i < nodes(s).len() && nodes(s)[i] == v;
        assert(version::node(s[i]) == v);
    }
}

} // verus!
