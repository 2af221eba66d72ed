//! Which criteria each package has to meet.

use vstd::prelude::*;
use guppy::graph::cargo::CargoResolverVersion;
use guppy::graph::PackageGraph;
use crate::criteria;
use crate::criteria::{CriteriaMapper, CriteriaSet};
use crate::package_graph;
use crate::package_graph::{find_packages, read_features, workspace_ids, workspace_root_ids};
use crate::packages;
use crate::packages::{
    BuildFeatures, BuildPlatform, DependencyKind, EnabledTernary, Link, LinkStatus, Package,
};
use crate::records::{ConfigFile, PolicyEntry};
use crate::text;

verus! {

/// A package that is built for a platform, and the criteria that this asks of
/// it.
pub struct Visit {
    pub package: int,
    pub platform: BuildPlatform,
    pub criteria: CriteriaSet,
}

/// A build: its packages, the policies, and where it starts.
pub struct BuildModel {
    pub config: ConfigFile,
    pub mapper: CriteriaMapper,
    pub packages: Seq<Package>,
    /// The links that features enable, by platform, package and link.
    pub enabled: Set<(BuildPlatform, int, int)>,
    /// The packages that the build starts with.
    pub initials: Set<int>,
    /// Whether development dependencies are built.
    pub dev_pass: bool,
}

/// The criteria of an optional list of names, if there is one.
pub open spec fn listed_criteria(m: CriteriaMapper, list: Option<Vec<String>>) -> Option<
    CriteriaSet,
> {
    match list {
        Some(names) => Some(criteria::criteria_of(m, text::texts(names@))),
        None => None,
    }
}

/// Whether a dependency is followed. Without a feature for it, it has to be
/// required; where it is not known whether it is enabled, it is followed.
pub open spec fn link_enabled(by_feature: bool, status: LinkStatus) -> bool {
    (if by_feature {
        status.enabled
    } else {
        status.required
    }) != EnabledTernary::Disabled
}

impl BuildModel {
    /// The criteria that the packages at the start of the build need, unless a
    /// policy says otherwise.
    pub open spec fn initial_criteria(self) -> CriteriaSet {
        if self.dev_pass {
            match listed_criteria(self.mapper, self.config.root_policy.dev_criteria) {
                Some(c) => c,
                None => criteria::criteria_of(self.mapper, seq![criteria::safe_to_run()]),
            }
        } else {
            match listed_criteria(self.mapper, self.config.root_policy.criteria) {
                Some(c) => c,
                None => criteria::criteria_of(self.mapper, seq![criteria::safe_to_deploy()]),
            }
        }
    }

    /// The policy for a package.
    pub open spec fn policy(self, p: int) -> Option<PolicyEntry> {
        self.packages[p].policy(self.config.policy)
    }

    /// The criteria that the policy for a package states, if it does.
    pub open spec fn policy_criteria(self, p: int) -> Option<CriteriaSet> {
        match self.policy(p) {
            Some(entry) => listed_criteria(self.mapper, entry.criteria),
            None => None,
        }
    }

    /// The development criteria that the policy for a package states, if it
    /// does.
    pub open spec fn policy_dev_criteria(self, p: int) -> Option<CriteriaSet> {
        match self.policy(p) {
            Some(entry) => listed_criteria(self.mapper, entry.dev_criteria),
            None => None,
        }
    }

    /// The criteria that a package needs when its dependents ask for `asked`.
    /// The development pass never asks for more than the criteria of a policy
    /// that states no development criteria.
    pub open spec fn self_criteria(self, p: int, asked: CriteriaSet) -> CriteriaSet {
        if self.dev_pass {
            match self.policy_dev_criteria(p) {
                Some(c) => c,
                None => match self.policy_criteria(p) {
                    Some(c) => asked.intersection(c),
                    None => asked,
                },
            }
        } else {
            match self.policy_criteria(p) {
                Some(c) => c,
                None => asked,
            }
        }
    }

    /// The criteria that a package asks of the package at the other end of a
    /// link.
    pub open spec fn link_criteria(self, p: int, k: int, own: CriteriaSet) -> CriteriaSet {
        let to = self.packages[self.packages[p].links@[k].to as int];
        match self.policy(p) {
            Some(entry) => match entry.dependency_criteria.get_spec(to.name@) {
                Some(names) => criteria::criteria_of(self.mapper, text::texts(names@)),
                None => own,
            },
            None => own,
        }
    }

    /// Whether a link is followed for one kind of dependency.
    pub open spec fn follows(
        self,
        platform: BuildPlatform,
        p: int,
        k: int,
        kind: DependencyKind,
    ) -> bool {
        link_enabled(
            self.enabled.contains((platform, p, k)),
            self.packages[p].links@[k].status(kind),
        )
    }

    /// Whether a link is followed for the platform of the package itself:
    /// normal dependencies always, development dependencies in the development
    /// pass only.
    pub open spec fn follows_own(self, platform: BuildPlatform, p: int, k: int) -> bool {
        self.follows(platform, p, k, DependencyKind::Normal) || self.dev_pass && self.follows(
            platform,
            p,
            k,
            DependencyKind::Development,
        )
    }

    /// Whether a link is followed as a build dependency, which takes a build
    /// script.
    pub open spec fn follows_build(self, platform: BuildPlatform, p: int, k: int) -> bool {
        self.packages[p].build_script && self.follows(platform, p, k, DependencyKind::Build)
    }

    /// What it means to ask criteria of a package on a platform. Procedural
    /// macros are built for the host.
    pub open spec fn visit(self, p: int, platform: BuildPlatform, asked: CriteriaSet) -> Visit {
        Visit {
            package: p,
            platform: if self.packages[p].proc_macro {
                BuildPlatform::Host
            } else {
                platform
            },
            criteria: self.self_criteria(p, asked),
        }
    }

    /// What a visit leads to over a link, for the platform of the visit or for
    /// the host.
    pub open spec fn over_link(self, u: Visit, k: int, to_host: bool) -> Visit {
        self.visit(
            self.packages[u.package].links@[k].to as int,
            if to_host {
                BuildPlatform::Host
            } else {
                u.platform
            },
            self.link_criteria(u.package, k, u.criteria),
        )
    }

    /// Whether a visit follows a link, for its own platform or for the host.
    pub open spec fn takes_link(self, u: Visit, k: int, to_host: bool) -> bool {
        &&& 0 <= u.package < self.packages.len()
        &&& 0 <= k < self.packages[u.package].links@.len()
        &&& if to_host {
            self.follows_build(u.platform, u.package, k)
        } else {
            self.follows_own(u.platform, u.package, k)
        }
    }

    /// Whether the build starts with a visit.
    pub open spec fn is_initial(self, v: Visit) -> bool {
        self.initials.contains(v.package) && v == self.visit(
            v.package,
            BuildPlatform::Target,
            self.initial_criteria(),
        )
    }

    /// Whether each visit of `c` leads to the next one over a link.
    pub open spec fn is_chain(self, c: Seq<Visit>, links: Seq<(int, bool)>) -> bool {
        &&& c.len() > 0
        &&& links.len() == c.len() - 1
        &&& self.is_initial(c[0])
        &&& forall|i: int|
            0 <= i < links.len() ==> self.takes_link(c[i], (#[trigger] links[i]).0, links[i].1)
                && c[i + 1] == self.over_link(c[i], links[i].0, links[i].1)
    }

    /// Whether the build comes to a visit.
    pub open spec fn reaches(self, v: Visit) -> bool {
        exists|c: Seq<Visit>, links: Seq<(int, bool)>| #[trigger]
            self.is_chain(c, links) && c.last() == v
    }

    /// Whether the build asks the criterion `i` of the package `p`. Only
    /// third-party packages need audits.
    pub open spec fn requires_criterion(self, p: int, i: int) -> bool {
        self.packages[p].third_party(self.config.policy) && exists|v: Visit| #[trigger]
            self.reaches(v) && v.package == p && v.criteria.has(i)
    }

    /// The indices in the model are in range.
    pub open spec fn wf(self) -> bool {
        &&& self.mapper.wf()
        &&& packages::links_ok(self.packages)
        &&& forall|p: int| #[trigger] self.initials.contains(p) ==> 0 <= p < self.packages.len()
    }
}

/// Whether a dependency is followed, given whether a feature enables it.
pub fn is_link_enabled(by_feature: bool, link: &Link, kind: DependencyKind) -> (r: bool)
    ensures
        r == link_enabled(by_feature, link.status(kind)),
{
    let status = link.req_for_kind(kind);
    let enabled = if by_feature {
        status.enabled
    } else {
        status.required
    };
    match enabled {
        EnabledTernary::Disabled => false,
        EnabledTernary::Unknown => true,
        EnabledTernary::Enabled => true,
    }
}

/// A package that is still to be looked at.
struct Todo {
    package: usize,
    platform: BuildPlatform,
    criteria: CriteriaSet,
}

impl BuildModel {
    /// The visit that a pending item stands for.
    spec fn visit_of(self, t: Todo) -> Visit {
        self.visit(t.package as int, t.platform, t.criteria)
    }
}

/// The criteria that were applied so far, by platform and package.
struct Seen {
    target: Vec<Option<CriteriaSet>>,
    host: Vec<Option<CriteriaSet>>,
}

/// How much can still be added to a row.
spec fn room(row: Seq<Option<CriteriaSet>>) -> nat
    decreases row.len(),
{
    if row.len() == 0 {
        0
    } else {
        room(row.drop_last()) + match row.last() {
            Some(s) => (64 - criteria::count(s, 64)) as nat,
            None => 65,
        }
    }
}

proof fn lemma_room_update(row: Seq<Option<CriteriaSet>>, p: int, s: CriteriaSet)
    requires
        0 <= p < row.len(),
        row[p] is Some ==> s.covers(row[p]->0) && !(row[p]->0).covers(s),
    ensures
        room(row.update(p, Some(s))) < room(row),
    decreases row.len(),
{
    let u = row.update(p, Some(s));
    criteria::lemma_count(s, s, 64);
    if p == row.len() - 1 {
        assert(u.drop_last() =~= row.drop_last());
        if row[p] is Some {
            let old_set = row[p]->0;
            criteria::lemma_count(old_set, s, 64);
            let i = choose|i: int| #[trigger] s.has(i) && !old_set.has(i);
            assert(0 <= i < 64 && s.has(i) && !old_set.has(i));
        }
    } else {
        assert(u.drop_last() =~= row.drop_last().update(p, Some(s)));
        assert(row.drop_last()[p] == row[p]);
        lemma_room_update(row.drop_last(), p, s);
    }
}

impl Seen {
    spec fn row(self, platform: BuildPlatform) -> Seq<Option<CriteriaSet>> {
        match platform {
            BuildPlatform::Target => self.target@,
            BuildPlatform::Host => self.host@,
        }
    }

    spec fn fits(self, n: nat) -> bool {
        self.target@.len() == n && self.host@.len() == n
    }

    spec fn at(self, v: Visit) -> Option<CriteriaSet> {
        self.row(v.platform)[v.package]
    }

    /// Whether everything that a visit asks for was applied.
    spec fn covers(self, v: Visit) -> bool {
        self.at(v) is Some && self.at(v)->0.covers(v.criteria)
    }

    spec fn room(self) -> nat {
        room(self.target@) + room(self.host@)
    }

    /// Whether the state differs from an earlier one by a visit.
    spec fn grew(self, before: Seen, n: nat, u: Visit) -> bool {
        &&& self.fits(n)
        &&& forall|q: BuildPlatform, p: int|
            0 <= p < n && (p != u.package || q != u.platform) ==> #[trigger] self.row(q)[p]
                == before.row(q)[p]
        &&& self.at(u) is Some
        &&& forall|i: int| #[trigger]
            self.at(u)->0.has(i) == (u.criteria.has(i) || (before.at(u) is Some && before.at(
                u,
            )->0.has(i)))
    }

    /// Notes that criteria are applied. Returns whether that is news.
    fn apply(&mut self, platform: BuildPlatform, p: usize, criteria: &CriteriaSet) -> (r: bool)
        requires
            old(self).fits(old(self).target@.len()),
            p < old(self).target@.len(),
        ensures
            r == !old(self).covers(
                (Visit { package: p as int, platform, criteria: *criteria }),
            ),
            !r ==> *final(self) == *old(self),
            r ==> final(self).room() < old(self).room(),
            r ==> final(self).grew(
                *old(self),
                old(self).target@.len(),
                (Visit { package: p as int, platform, criteria: *criteria }),
            ),
    {
        let before: Option<CriteriaSet> = match platform {
            BuildPlatform::Target => self.target[p],
            BuildPlatform::Host => self.host[p],
        };
        let mut set = CriteriaSet::none();
        if let Some(s) = before {
            if s.contains(criteria) {
                return false;
            }
            set = s;
        }
        set.unioned_with(criteria);
        proof {
            if before is Some {
                assert(set.covers(before->0));
                if (before->0).covers(set) {
                    assert forall|i: int| #[trigger] criteria.has(i) implies (before->0).has(i) by {
                        assert(set.has(i));
                    }
                    assert((before->0).covers(*criteria));
                }
            }
            lemma_room_update(self.row(platform), p as int, set);
        }
        match platform {
            BuildPlatform::Target => {
                self.target.set(p, Some(set));
            },
            BuildPlatform::Host => {
                self.host.set(p, Some(set));
            },
        }
        true
    }
}

impl BuildModel {
    /// What was done so far: the visits of `done` were applied, and all that
    /// they lead to is applied or pending.
    #[verifier::opaque]
    spec fn progress(self, done: Set<Visit>, seen: Seen, todos: Seq<Todo>) -> bool {
        &&& self.sound(done, seen, todos)
        &&& forall|v: Visit|
            #[trigger] self.is_initial(v) ==> self.handled(seen, todos, v)
        &&& forall|u: Visit, k: int, to_host: bool|
            done.contains(u) && #[trigger] self.takes_link(u, k, to_host) ==> self.handled(
                seen,
                todos,
                self.over_link(u, k, to_host),
            )
    }

    /// What was applied and what is pending is part of the build.
    spec fn sound(self, done: Set<Visit>, seen: Seen, todos: Seq<Todo>) -> bool {
        &&& seen.fits(self.packages.len())
        &&& forall|j: int|
            0 <= j < todos.len() ==> (#[trigger] todos[j]).package < self.packages.len()
                && self.reaches(self.visit_of(todos[j]))
        &&& forall|u: Visit| #[trigger]
            done.contains(u) ==> 0 <= u.package < self.packages.len() && self.reaches(u)
                && seen.covers(u)
        &&& forall|q: BuildPlatform, p: int|
            0 <= p < self.packages.len() && (#[trigger] seen.row(q)[p]) is Some ==> exists|
                u: Visit,
            | #[trigger] done.contains(u) && u.package == p && u.platform == q
        &&& forall|q: BuildPlatform, p: int, i: int|
            0 <= p < self.packages.len() && seen.row(q)[p] is Some && #[trigger] seen.row(
                q,
            )[p]->0.has(i) ==> exists|u: Visit| #[trigger]
                done.contains(u) && u.package == p && u.platform == q && u.criteria.has(i)
    }

    /// Whether a visit was applied or is pending.
    spec fn handled(self, seen: Seen, todos: Seq<Todo>, v: Visit) -> bool {
        seen.covers(v) || exists|j: int|
            0 <= j < todos.len() && self.visit_of(#[trigger] todos[j]) == v
    }

    /// A visit that the build comes to leads on to further visits.
    pub proof fn lemma_reaches_next(self, u: Visit, k: int, to_host: bool)
        requires
            self.reaches(u),
            self.takes_link(u, k, to_host),
        ensures
            self.reaches(self.over_link(u, k, to_host)),
    {
        let (c, links) = choose|c: Seq<Visit>, links: Seq<(int, bool)>| #[trigger]
            self.is_chain(c, links) && c.last() == u;
        let v = self.over_link(u, k, to_host);
        let c2 = c.push(v);
        let links2 = links.push((k, to_host));
        assert(self.is_chain(c2, links2)) by {
            assert forall|i: int| 0 <= i < links2.len() implies self.takes_link(
                c2[i],
                (#[trigger] links2[i]).0,
                links2[i].1,
            ) && c2[i + 1] == self.over_link(c2[i], links2[i].0, links2[i].1) by {
                if i < links.len() {
                    assert(links2[i] == links[i]);
                }
            }
        }
        assert(c2.last() == v);
    }

    /// The build comes to the visits that it starts with.
    pub proof fn lemma_reaches_initial(self, v: Visit)
        requires
            self.is_initial(v),
        ensures
            self.reaches(v),
    {
        let c = seq![v];
        let links = Seq::<(int, bool)>::empty();
        assert(self.is_chain(c, links));
        assert(c.last() == v);
    }

    /// An item whose criteria were applied before can be dropped.
    proof fn lemma_skipped(self, done: Set<Visit>, seen: Seen, todo: Todo, rest: Seq<Todo>)
        requires
            self.progress(done, seen, rest.push(todo)),
            seen.covers(self.visit_of(todo)),
        ensures
            self.progress(done, seen, rest),
    {
        reveal(BuildModel::progress);
        let todos = rest.push(todo);
        assert forall|j: int| 0 <= j < rest.len() implies (#[trigger] rest[j]).package
            < self.packages.len() && self.reaches(self.visit_of(rest[j])) by {
            assert(todos[j] == rest[j]);
        }
        assert forall|v: Visit| self.handled(seen, todos, v) implies self.handled(
            seen,
            rest,
            v,
        ) by {
            if !seen.covers(v) {
                let j = choose|j: int|
                    0 <= j < todos.len() && self.visit_of(#[trigger] todos[j]) == v;
                assert(rest[j] == todos[j]);
            }
        }
    }

    proof fn lemma_applied_sound(
        self,
        done: Set<Visit>,
        seen: Seen,
        seen2: Seen,
        todo: Todo,
        rest: Seq<Todo>,
        next: Seq<Todo>,
    )
        requires
            self.wf(),
            self.progress(done, seen, rest.push(todo)),
            todo.package < self.packages.len(),
            seen2.grew(seen, self.packages.len(), self.visit_of(todo)),
            has_links(
                self,
                self.visit_of(todo),
                self.packages[todo.package as int].links@.len() as int,
                rest,
                next,
            ),
        ensures
            self.sound(done.insert(self.visit_of(todo)), seen2, next),
    {
        reveal(BuildModel::progress);
        reveal(has_links);
        let todos = rest.push(todo);
        let u = self.visit_of(todo);
        let done2 = done.insert(u);
        assert(todos[todos.len() - 1] == todo);
        assert(self.reaches(u));
        assert forall|j: int| 0 <= j < next.len() implies (#[trigger] next[j]).package
            < self.packages.len() && self.reaches(self.visit_of(next[j])) by {
            if j < rest.len() {
                assert(next[j] == todos[j]);
            } else {
                let (k, h) = choose|k: int, h: bool| #[trigger]
                    self.takes_link(u, k, h) && self.visit_of(next[j]) == self.over_link(u, k, h);
                self.lemma_reaches_next(u, k, h);
            }
        }
        assert forall|v: Visit| #[trigger] done2.contains(v) implies 0 <= v.package
            < self.packages.len() && self.reaches(v) && seen2.covers(v) by {
            if v != u {
                assert(done.contains(v));
                assert(seen.covers(v));
                assert(seen2.at(v) is Some);
            }
        }
        assert forall|q: BuildPlatform, p: int|
            0 <= p < self.packages.len() && (#[trigger] seen2.row(q)[p]) is Some implies exists|
            w: Visit,
        | #[trigger] done2.contains(w) && w.package == p && w.platform == q by {
            if p == u.package && q == u.platform {
                assert(done2.contains(u));
            } else {
                assert(seen.row(q)[p] is Some);
                let w = choose|w: Visit| #[trigger]
                    done.contains(w) && w.package == p && w.platform == q;
                assert(done2.contains(w));
            }
        }
        assert forall|q: BuildPlatform, p: int, i: int|
            0 <= p < self.packages.len() && seen2.row(q)[p] is Some && #[trigger] seen2.row(
                q,
            )[p]->0.has(i) implies exists|w: Visit| #[trigger]
            done2.contains(w) && w.package == p && w.platform == q && w.criteria.has(i) by {
            if p == u.package && q == u.platform && u.criteria.has(i) {
                assert(done2.contains(u));
            } else {
                if p == u.package && q == u.platform {
                    assert(seen2.at(u)->0.has(i));
                } else {
                    assert(seen2.row(q)[p] == seen.row(q)[p]);
                }
                assert(seen.row(q)[p] is Some && seen.row(q)[p]->0.has(i));
                let w = choose|w: Visit| #[trigger]
                    done.contains(w) && w.package == p && w.platform == q && w.criteria.has(i);
                assert(done2.contains(w));
            }
        }
    }

    proof fn lemma_applied_handled(
        self,
        done: Set<Visit>,
        seen: Seen,
        seen2: Seen,
        todo: Todo,
        rest: Seq<Todo>,
        next: Seq<Todo>,
        v: Visit,
    )
        requires
            self.wf(),
            self.progress(done, seen, rest.push(todo)),
            todo.package < self.packages.len(),
            seen2.grew(seen, self.packages.len(), self.visit_of(todo)),
            has_links(
                self,
                self.visit_of(todo),
                self.packages[todo.package as int].links@.len() as int,
                rest,
                next,
            ),
            0 <= v.package < self.packages.len(),
            self.handled(seen, rest.push(todo), v),
        ensures
            self.handled(seen2, next, v),
    {
        reveal(has_links);
        let todos = rest.push(todo);
        let u = self.visit_of(todo);
        if seen.covers(v) {
            assert(seen2.at(v) is Some);
        } else {
            let j = choose|j: int| 0 <= j < todos.len() && self.visit_of(#[trigger] todos[j]) == v;
            if j < rest.len() {
                assert(next[j] == rest[j]);
                assert(self.visit_of(next[j]) == v);
            } else {
                assert(v == u);
                assert(seen2.covers(u));
            }
        }
    }

    /// An item is applied, and what it leads to becomes pending.
    proof fn lemma_applied(
        self,
        done: Set<Visit>,
        seen: Seen,
        seen2: Seen,
        todo: Todo,
        rest: Seq<Todo>,
        next: Seq<Todo>,
    )
        requires
            self.wf(),
            self.progress(done, seen, rest.push(todo)),
            todo.package < self.packages.len(),
            seen2.grew(seen, self.packages.len(), self.visit_of(todo)),
            has_links(
                self,
                self.visit_of(todo),
                self.packages[todo.package as int].links@.len() as int,
                rest,
                next,
            ),
        ensures
            self.progress(done.insert(self.visit_of(todo)), seen2, next),
    {
        reveal(BuildModel::progress);
        reveal(has_links);
        self.lemma_applied_sound(done, seen, seen2, todo, rest, next);
        let todos = rest.push(todo);
        let u = self.visit_of(todo);
        let done2 = done.insert(u);
        assert forall|v: Visit| #[trigger] self.is_initial(v) implies self.handled(
            seen2,
            next,
            v,
        ) by {
            assert(self.initials.contains(v.package));
            self.lemma_applied_handled(done, seen, seen2, todo, rest, next, v);
        }
        assert forall|w: Visit, k: int, h: bool|
            done2.contains(w) && #[trigger] self.takes_link(w, k, h) implies self.handled(
            seen2,
            next,
            self.over_link(w, k, h),
        ) by {
            let v = self.over_link(w, k, h);
            assert(self.packages[w.package].links@[k].to < self.packages.len());
            if w == u {
                let j = choose|j: int|
                    rest.len() <= j < next.len() && self.visit_of(#[trigger] next[j]) == v;
                assert(self.visit_of(next[j]) == v);
            } else {
                assert(done.contains(w));
                self.lemma_applied_handled(done, seen, seen2, todo, rest, next, v);
            }
        }
    }

    /// Where a link asks for a criterion, it does so whatever it starts from,
    /// or because it starts from that criterion.
    proof fn lemma_over_link_distributes(self, v: Visit, k: int, to_host: bool, i: int)
        requires
            self.over_link(v, k, to_host).criteria.has(i),
        ensures
            (forall|u: Visit|
                u.package == v.package && u.platform == v.platform ==> #[trigger] self.over_link(
                    u,
                    k,
                    to_host,
                ).criteria.has(i)) || (v.criteria.has(i) && forall|u: Visit|
                u.package == v.package && u.platform == v.platform && u.criteria.has(i)
                    ==> #[trigger] self.over_link(u, k, to_host).criteria.has(i)),
    {
        let p = v.package;
        let to = self.packages[p].links@[k].to as int;
        assert forall|a: CriteriaSet, b: CriteriaSet, j: int| #[trigger]
            a.intersection(b).has(j) == (a.has(j) && b.has(j)) by {
            CriteriaSet::lemma_intersection(a, b);
        }
    }

    /// Once nothing is pending, all that the build comes to is applied.
    proof fn lemma_complete(self, done: Set<Visit>, seen: Seen, v: Visit, i: int)
        requires
            self.wf(),
            self.progress(done, seen, Seq::<Todo>::empty()),
            self.reaches(v),
            v.criteria.has(i),
        ensures
            exists|u: Visit| #[trigger]
                done.contains(u) && u.package == v.package && u.criteria.has(i),
    {
        reveal(BuildModel::progress);
        let (c, links) = choose|c: Seq<Visit>, links: Seq<(int, bool)>| #[trigger]
            self.is_chain(c, links) && c.last() == v;
        self.lemma_complete_chain(done, seen, c, links, c.len() - 1);
        assert(seen.at(v)->0.has(i));
    }

    /// A pending item is part of the build.
    proof fn lemma_pending(self, done: Set<Visit>, seen: Seen, todos: Seq<Todo>, j: int)
        requires
            self.progress(done, seen, todos),
            0 <= j < todos.len(),
        ensures
            todos[j].package < self.packages.len(),
            seen.fits(self.packages.len()),
    {
        reveal(BuildModel::progress);
    }

    /// What was applied is part of the build.
    proof fn lemma_done(self, done: Set<Visit>, seen: Seen, todos: Seq<Todo>, u: Visit)
        requires
            self.progress(done, seen, todos),
            done.contains(u),
        ensures
            self.reaches(u),
    {
        reveal(BuildModel::progress);
    }

    proof fn lemma_complete_chain(
        self,
        done: Set<Visit>,
        seen: Seen,
        c: Seq<Visit>,
        links: Seq<(int, bool)>,
        n: int,
    )
        requires
            self.wf(),
            self.progress(done, seen, Seq::<Todo>::empty()),
            self.is_chain(c, links),
            0 <= n < c.len(),
        ensures
            0 <= c[n].package < self.packages.len(),
            seen.covers(c[n]),
        decreases n,
    {
        reveal(BuildModel::progress);
        if n == 0 {
            assert(self.handled(seen, Seq::<Todo>::empty(), c[0]));
        } else {
            self.lemma_complete_chain(done, seen, c, links, n - 1);
            let u = c[n - 1];
            let (k, to_host) = links[n - 1];
            let v = c[n];
            assert(v == self.over_link(u, k, to_host));
            assert(self.packages[u.package].links@[k].to < self.packages.len());
            assert(seen.at(u) is Some);
            let w = choose|w: Visit| #[trigger]
                done.contains(w) && w.package == u.package && w.platform == u.platform;
            assert(self.takes_link(w, k, to_host));
            let wv = self.over_link(w, k, to_host);
            assert(seen.covers(wv));
            assert(seen.at(wv) == seen.at(v));
            assert forall|i: int| #[trigger] v.criteria.has(i) implies seen.at(v)->0.has(i) by {
                self.lemma_over_link_distributes(u, k, to_host, i);
                if wv.criteria.has(i) {
                } else {
                    assert(u.criteria.has(i));
                    assert(seen.at(u)->0.has(i));
                    let x = choose|x: Visit| #[trigger]
                        done.contains(x) && x.package == u.package && x.platform == u.platform
                            && x.criteria.has(i);
                    assert(self.takes_link(x, k, to_host));
                    let xv = self.over_link(x, k, to_host);
                    assert(seen.covers(xv));
                    assert(xv.criteria.has(i));
                    assert(seen.at(xv) == seen.at(v));
                }
            }
        }
    }
}

/// The criteria of an optional list of names.
fn criteria_from_option(m: &CriteriaMapper, list: &Option<Vec<String>>) -> (r: Option<CriteriaSet>)
    requires
        m.wf(),
    ensures
        r == listed_criteria(*m, *list),
{
    match list {
        Some(names) => Some(m.criteria_from_list(names)),
        None => None,
    }
}

/// The criteria that a package needs when its dependents ask for `asked`.
fn self_criteria(
    m: &CriteriaMapper,
    policy: Option<&PolicyEntry>,
    asked: CriteriaSet,
    dev_pass: bool,
    Ghost(model): Ghost<BuildModel>,
    Ghost(p): Ghost<int>,
) -> (r: CriteriaSet)
    requires
        m.wf(),
        model.mapper == *m,
        model.dev_pass == dev_pass,
        match policy {
            Some(entry) => model.policy(p) == Some(*entry),
            None => model.policy(p) is None,
        },
    ensures
        r == model.self_criteria(p, asked),
{
    let explicit: Option<CriteriaSet> = match policy {
        Some(entry) => criteria_from_option(m, &entry.criteria),
        None => None,
    };
    if !dev_pass {
        return match explicit {
            Some(c) => c,
            None => asked,
        };
    }
    let explicit_dev: Option<CriteriaSet> = match policy {
        Some(entry) => criteria_from_option(m, &entry.dev_criteria),
        None => None,
    };
    match explicit_dev {
        Some(c) => c,
        None => {
            let mut capped = asked;
            if let Some(c) = explicit {
                capped.intersected_with(&c);
                proof {
                    CriteriaSet::lemma_intersection(asked, c);
                    CriteriaSet::lemma_ext(capped, asked.intersection(c));
                }
            }
            capped
        },
    }
}

/// The criteria that a package asks of a dependency.
fn link_criteria(
    m: &CriteriaMapper,
    policy: Option<&PolicyEntry>,
    dependency: &Package,
    own: CriteriaSet,
    Ghost(model): Ghost<BuildModel>,
    Ghost(p): Ghost<int>,
    Ghost(k): Ghost<int>,
) -> (r: CriteriaSet)
    requires
        m.wf(),
        model.mapper == *m,
        match policy {
            Some(entry) => model.policy(p) == Some(*entry),
            None => model.policy(p) is None,
        },
        *dependency == model.packages[model.packages[p].links@[k].to as int],
    ensures
        r == model.link_criteria(p, k, own),
{
    match policy {
        Some(entry) => match entry.dependency_criteria.get(dependency.name.as_str()) {
            Some(names) => m.criteria_from_list(names),
            None => own,
        },
        None => own,
    }
}

/// The criteria that the packages at the start of a build need.
fn initial_criteria(
    config: &ConfigFile,
    m: &CriteriaMapper,
    dev_pass: bool,
    Ghost(model): Ghost<BuildModel>,
) -> (r: CriteriaSet)
    requires
        m.wf(),
        model.mapper == *m,
        model.config == *config,
        model.dev_pass == dev_pass,
    ensures
        r == model.initial_criteria(),
{
    if dev_pass {
        match criteria_from_option(m, &config.root_policy.dev_criteria) {
            Some(c) => c,
            None => m.criteria_from_name("safe-to-run"),
        }
    } else {
        match criteria_from_option(m, &config.root_policy.criteria) {
            Some(c) => c,
            None => m.criteria_from_name("safe-to-deploy"),
        }
    }
}

/// The model of a build.
pub open spec fn build_model(
    config: ConfigFile,
    mapper: CriteriaMapper,
    packages: Seq<Package>,
    features: BuildFeatures,
    initials: Seq<usize>,
    dev_pass: bool,
) -> BuildModel {
    BuildModel {
        config,
        mapper,
        packages,
        enabled: Set::new(
            |t: (BuildPlatform, int, int)|
                0 <= t.1 < packages.len() && 0 <= t.2 < packages[t.1].links@.len() && features.has(
                    t.0,
                    t.1,
                    t.2,
                ),
        ),
        initials: Set::new(|p: int| exists|j: int| 0 <= j < initials.len() && initials[j] == p),
        dev_pass,
    }
}

/// Each requirement is an earlier one or was applied since.
spec fn applied(
    model: BuildModel,
    done: Set<Visit>,
    before: Seq<CriteriaSet>,
    after: Seq<CriteriaSet>,
) -> bool {
    forall|p: int, i: int|
        0 <= p < model.packages.len() ==> #[trigger] after[p].has(i) == (before[p].has(i)
            || model.packages[p].third_party(model.config.policy) && exists|u: Visit| #[trigger]
            done.contains(u) && u.package == p && u.criteria.has(i))
}

proof fn lemma_out(
    model: BuildModel,
    done: Set<Visit>,
    v: Visit,
    before: Seq<CriteriaSet>,
    mid: Seq<CriteriaSet>,
    after: Seq<CriteriaSet>,
)
    requires
        applied(model, done, before, mid),
        mid.len() == after.len() == model.packages.len(),
        0 <= v.package < mid.len(),
        forall|p: int| 0 <= p < mid.len() && p != v.package ==> #[trigger] after[p] == mid[p],
        if model.packages[v.package].third_party(model.config.policy) {
            forall|i: int| #[trigger]
                after[v.package].has(i) == (mid[v.package].has(i) || v.criteria.has(i))
        } else {
            after[v.package] == mid[v.package]
        },
    ensures
        applied(model, done.insert(v), before, after),
{
    let done2 = done.insert(v);
    assert forall|p: int, i: int| 0 <= p < model.packages.len() implies #[trigger] after[p].has(i)
        == (before[p].has(i) || model.packages[p].third_party(model.config.policy) && exists|
        u: Visit,
    | #[trigger] done2.contains(u) && u.package == p && u.criteria.has(i)) by {
        assert(mid[p].has(i) == (before[p].has(i) || model.packages[p].third_party(
            model.config.policy,
        ) && exists|u: Visit| #[trigger]
            done.contains(u) && u.package == p && u.criteria.has(i)));
        if exists|u: Visit| #[trigger] done.contains(u) && u.package == p && u.criteria.has(i) {
            let u = choose|u: Visit| #[trigger]
                done.contains(u) && u.package == p && u.criteria.has(i);
            assert(done2.contains(u));
        }
        if p == v.package && v.criteria.has(i) {
            assert(done2.contains(v));
        }
    }
}

/// Whether `after` holds `before` and then the visits over the links of `u`.
#[verifier::opaque]
spec fn has_links(
    model: BuildModel,
    u: Visit,
    links: int,
    before: Seq<Todo>,
    after: Seq<Todo>,
) -> bool {
    &&& before.len() <= after.len()
    &&& forall|j: int| 0 <= j < before.len() ==> #[trigger] after[j] == before[j]
    &&& forall|j: int|
        before.len() <= j < after.len() ==> (#[trigger] after[j]).package < model.packages.len()
            && exists|k: int, h: bool| #[trigger]
            model.takes_link(u, k, h) && model.visit_of(after[j]) == model.over_link(u, k, h)
    &&& forall|k: int, h: bool|
        k < links && #[trigger] model.takes_link(u, k, h) ==> exists|j: int|
            before.len() <= j < after.len() && model.visit_of(#[trigger] after[j])
                == model.over_link(u, k, h)
}

proof fn lemma_push_link(
    model: BuildModel,
    u: Visit,
    k: int,
    h: bool,
    before: Seq<Todo>,
    after: Seq<Todo>,
    todo: Todo,
)
    requires
        has_links(model, u, k, before, after),
        todo.package < model.packages.len(),
        model.takes_link(u, k, h),
        model.visit_of(todo) == model.over_link(u, k, h),
    ensures
        has_links(model, u, k, before, after.push(todo)),
        has_link(model, u, k, h, before.len() as int, after.push(todo)),
        forall|h2: bool|
            #[trigger] has_link(model, u, k, h2, before.len() as int, after) ==> has_link(
                model,
                u,
                k,
                h2,
                before.len() as int,
                after.push(todo),
            ),
{
    reveal(has_links);
    assert(model.visit_of(after.push(todo)[after.len() as int]) == model.over_link(u, k, h));
    assert forall|h2: bool| #[trigger]
        has_link(model, u, k, h2, before.len() as int, after) implies has_link(
        model,
        u,
        k,
        h2,
        before.len() as int,
        after.push(todo),
    ) by {
        let j = choose|j: int|
            before.len() <= j < after.len() && model.visit_of(#[trigger] after[j])
                == model.over_link(u, k, h2);
        assert(after.push(todo)[j] == after[j]);
    }
    let next = after.push(todo);
    assert forall|j: int| before.len() <= j < next.len() implies (#[trigger] next[j]).package
        < model.packages.len() && exists|k: int, h: bool| #[trigger]
        model.takes_link(u, k, h) && model.visit_of(next[j]) == model.over_link(u, k, h) by {
        if j < after.len() {
            assert(next[j] == after[j]);
        }
    }
    assert forall|k2: int, h2: bool| k2 < k && #[trigger] model.takes_link(u, k2, h2) implies exists|
        j: int,
    |
        before.len() <= j < next.len() && model.visit_of(#[trigger] next[j]) == model.over_link(
            u,
            k2,
            h2,
        ) by {
        let j = choose|j: int|
            before.len() <= j < after.len() && model.visit_of(#[trigger] after[j])
                == model.over_link(u, k2, h2);
        assert(next[j] == after[j]);
    }
}

/// Whether a link of `u` is among the items after the first `start`.
spec fn has_link(model: BuildModel, u: Visit, k: int, h: bool, start: int, todos: Seq<Todo>) -> bool {
    exists|j: int|
        start <= j < todos.len() && model.visit_of(#[trigger] todos[j]) == model.over_link(u, k, h)
}

proof fn lemma_next_link(
    model: BuildModel,
    u: Visit,
    k: int,
    before: Seq<Todo>,
    after: Seq<Todo>,
)
    requires
        has_links(model, u, k, before, after),
        model.takes_link(u, k, false) ==> has_link(
            model,
            u,
            k,
            false,
            before.len() as int,
            after,
        ),
        model.takes_link(u, k, true) ==> has_link(model, u, k, true, before.len() as int, after),
    ensures
        has_links(model, u, k + 1, before, after),
{
    reveal(has_links);
    assert forall|k2: int, h: bool| k2 < k + 1 && #[trigger] model.takes_link(u, k2, h) implies exists|
        j: int,
    |
        before.len() <= j < after.len() && model.visit_of(#[trigger] after[j]) == model.over_link(
            u,
            k2,
            h,
        ) by {
        if k2 == k {
            assert(has_link(model, u, k, h, before.len() as int, after));
        }
    }
}

/// Adds a pending item for each link that a visit follows.
fn push_links(
    config: &ConfigFile,
    mapper: &CriteriaMapper,
    packages: &Vec<Package>,
    features: &BuildFeatures,
    dev_pass: bool,
    policy: Option<&PolicyEntry>,
    p: usize,
    platform: BuildPlatform,
    own: CriteriaSet,
    todos: &mut Vec<Todo>,
    Ghost(model): Ghost<BuildModel>,
)
    requires
        model.wf(),
        model.config == *config,
        model.mapper == *mapper,
        model.packages == packages@,
        model.dev_pass == dev_pass,
        features.fits(packages@),
        forall|q: BuildPlatform, x: int, k: int|
            0 <= x < packages@.len() && 0 <= k < packages@[x].links@.len() ==> (
            #[trigger] model.enabled.contains((q, x, k))) == features.has(q, x, k),
        p < packages@.len(),
        match policy {
            Some(entry) => model.policy(p as int) == Some(*entry),
            None => model.policy(p as int) is None,
        },
    ensures
        has_links(
            model,
            (Visit { package: p as int, platform, criteria: own }),
            packages@[p as int].links@.len() as int,
            old(todos)@,
            final(todos)@,
        ),
{
    let ghost u = Visit { package: p as int, platform, criteria: own };
    let ghost before = todos@;
    let package = &packages[p];
    let mut k: usize = 0;
    proof {
        reveal(has_links);
    }
    while k < package.links.len()
        invariant
            model.wf(),
            model.config == *config,
            model.mapper == *mapper,
            model.packages == packages@,
            model.dev_pass == dev_pass,
            features.fits(packages@),
            forall|q: BuildPlatform, x: int, k: int|
                0 <= x < packages@.len() && 0 <= k < packages@[x].links@.len() ==> (
                #[trigger] model.enabled.contains((q, x, k))) == features.has(q, x, k),
            p < packages@.len(),
            *package == packages@[p as int],
            match policy {
                Some(entry) => model.policy(p as int) == Some(*entry),
                None => model.policy(p as int) is None,
            },
            u == (Visit { package: p as int, platform, criteria: own }),
            k <= package.links@.len(),
            has_links(model, u, k as int, before, todos@),
        decreases package.links@.len() - k,
    {
        let link = &package.links[k];
        assert(model.packages[p as int].links@[k as int].to < model.packages.len());
        let criteria = link_criteria(
            mapper,
            policy,
            &packages[link.to],
            own,
            Ghost(model),
            Ghost(p as int),
            Ghost(k as int),
        );
        let by_feature = features.contains(platform, p, k);
        assert(model.enabled.contains((platform, p as int, k as int)) == by_feature);
        let has_normal = is_link_enabled(by_feature, link, DependencyKind::Normal);
        let has_dev = dev_pass && is_link_enabled(by_feature, link, DependencyKind::Development);
        let has_build = package.build_script && is_link_enabled(
            by_feature,
            link,
            DependencyKind::Build,
        );
        if has_normal || has_dev {
            let todo = Todo { package: link.to, platform, criteria };
            proof {
                lemma_push_link(model, u, k as int, false, before, todos@, todo);
            }
            todos.push(todo);
        }
        if has_build {
            let todo = Todo { package: link.to, platform: BuildPlatform::Host, criteria };
            proof {
                lemma_push_link(model, u, k as int, true, before, todos@, todo);
            }
            todos.push(todo);
        }
        proof {
            lemma_next_link(model, u, k as int, before, todos@);
        }
        k = k + 1;
    }
}

/// Adds what one build asks of each third-party package to `out`.
///
/// In the development pass the development criteria of the policies count and
/// development dependencies are followed.
pub fn propagate_requirements(
    config: &ConfigFile,
    mapper: &CriteriaMapper,
    packages: &Vec<Package>,
    features: &BuildFeatures,
    initials: &Vec<usize>,
    dev_pass: bool,
    out: &mut Vec<CriteriaSet>,
)
    requires
        mapper.wf(),
        packages::links_ok(packages@),
        features.fits(packages@),
        forall|j: int| 0 <= j < initials@.len() ==> (#[trigger] initials@[j]) < packages@.len(),
        old(out)@.len() == packages@.len(),
    ensures
        final(out)@.len() == packages@.len(),
        forall|p: int, i: int|
            0 <= p < packages@.len() ==> #[trigger] final(out)@[p].has(i) == (old(out)@[p].has(i)
                || build_model(
                *config,
                *mapper,
                packages@,
                *features,
                initials@,
                dev_pass,
            ).requires_criterion(p, i)),
{
    let ghost model = build_model(
        *config,
        *mapper,
        packages@,
        *features,
        initials@,
        dev_pass,
    );
    let ghost n = packages@.len();
    let start = initial_criteria(config, mapper, dev_pass, Ghost(model));
    let mut todos: Vec<Todo> = Vec::new();
    let mut seen = Seen { target: Vec::new(), host: Vec::new() };
    let mut j: usize = 0;
    while j < packages.len()
        invariant
            j <= packages@.len(),
            seen.fits(j as nat),
            forall|x: int| 0 <= x < j ==> (#[trigger] seen.target@[x]) is None,
            forall|x: int| 0 <= x < j ==> (#[trigger] seen.host@[x]) is None,
        decreases packages@.len() - j,
    {
        seen.target.push(None);
        seen.host.push(None);
        j = j + 1;
    }
    j = 0;
    while j < initials.len()
        invariant
            j <= initials@.len(),
            todos@.len() == j,
            start == model.initial_criteria(),
            forall|x: int|
                0 <= x < j ==> (#[trigger] todos@[x]) == (Todo {
                    package: initials@[x],
                    platform: BuildPlatform::Target,
                    criteria: start,
                }),
        decreases initials@.len() - j,
    {
        todos.push(
            Todo { package: initials[j], platform: BuildPlatform::Target, criteria: start },
        );
        j = j + 1;
    }
    let ghost mut done = Set::<Visit>::empty();
    proof {
        reveal(BuildModel::progress);
        assert forall|x: int| 0 <= x < todos@.len() implies (#[trigger] todos@[x]).package < n
            && model.reaches(model.visit_of(todos@[x])) by {
            assert(initials@[x] < n);
            assert(model.initials.contains(initials@[x] as int));
            model.lemma_reaches_initial(model.visit_of(todos@[x]));
        }
        assert forall|v: Visit| #[trigger] model.is_initial(v) implies model.handled(
            seen,
            todos@,
            v,
        ) by {
            let x = choose|x: int| 0 <= x < initials@.len() && initials@[x] == v.package;
            assert(model.visit_of(todos@[x]) == v);
        }
    }
    assert(model.wf());
    while todos.len() > 0
        invariant
            model.wf(),
            model == build_model(*config, *mapper, packages@, *features, initials@, dev_pass),
            n == packages@.len(),
            features.fits(packages@),
            model.progress(done, seen, todos@),
            out@.len() == n,
            old(out)@.len() == n,
            applied(model, done, old(out)@, out@),
        decreases seen.room(), todos@.len(),
    {
        let ghost todos0 = todos@;
        let ghost seen0 = seen;
        let todo = todos.pop().unwrap();
        let ghost rest = todos@;
        let ghost v = model.visit_of(todo);
        assert(todos0 =~= rest.push(todo));
        proof {
            model.lemma_pending(done, seen, todos0, todos0.len() - 1);
        }
        let package = &packages[todo.package];
        let policy = package.policy_entry(&config.policy);
        let platform = if package.proc_macro {
            BuildPlatform::Host
        } else {
            todo.platform
        };
        let own = self_criteria(
            mapper,
            policy,
            todo.criteria,
            dev_pass,
            Ghost(model),
            Ghost(todo.package as int),
        );
        assert(v == (Visit { package: todo.package as int, platform, criteria: own }));
        if seen.apply(platform, todo.package, &own) {
            let ghost out0 = out@;
            if package.is_third_party(&config.policy) {
                let mut required: CriteriaSet = out[todo.package];
                required.unioned_with(&own);
                out.set(todo.package, required);
            }
            push_links(
                config,
                mapper,
                packages,
                features,
                dev_pass,
                policy,
                todo.package,
                platform,
                own,
                &mut todos,
                Ghost(model),
            );
            proof {
                model.lemma_applied(done, seen0, seen, todo, rest, todos@);
                lemma_out(model, done, v, old(out)@, out0, out@);
                done = done.insert(v);
            }
        } else {
            proof {
                model.lemma_skipped(done, seen, todo, rest);
            }
        }
    }
    proof {
        assert(todos@ =~= Seq::<Todo>::empty());
        assert forall|p: int, i: int| 0 <= p < n implies #[trigger] out@[p].has(i) == (old(
            out,
        )@[p].has(i) || model.requires_criterion(p, i)) by {
            if exists|v: Visit| #[trigger] model.reaches(v) && v.package == p && v.criteria.has(i) {
                let v = choose|v: Visit| #[trigger]
                    model.reaches(v) && v.package == p && v.criteria.has(i);
                model.lemma_complete(done, seen, v, i);
            }
            if exists|u: Visit| #[trigger] done.contains(u) && u.package == p && u.criteria.has(i) {
                let u = choose|u: Visit| #[trigger]
                    done.contains(u) && u.package == p && u.criteria.has(i);
                model.lemma_done(done, seen, todos@, u);
            }
        }
    }
}

/// The model of the build of packages of a graph with all their features.
pub open spec fn graph_build(
    graph: PackageGraph,
    resolver: CargoResolverVersion,
    config: ConfigFile,
    mapper: CriteriaMapper,
    packages: Seq<Package>,
    initials: Set<Seq<char>>,
    dev_pass: bool,
) -> BuildModel {
    let resolved = package_graph::resolved_dependencies(graph, initials, dev_pass, resolver);
    BuildModel {
        config,
        mapper,
        packages,
        enabled: Set::new(
            |t: (BuildPlatform, int, int)|
                0 <= t.1 < packages.len() && 0 <= t.2 < packages[t.1].links@.len()
                    && resolved.contains(
                    (t.0, packages[t.1].id@, packages[t.1].links@[t.2].dep_name@),
                ),
        ),
        initials: Set::new(|p: int| 0 <= p < packages.len() && initials.contains(packages[p].id@)),
        dev_pass,
    }
}

/// Adds what the build of some packages asks of each third-party package to
/// `out`.
pub fn resolve_requirements_for_build(
    graph: &PackageGraph,
    packages: &Vec<Package>,
    config: &ConfigFile,
    mapper: &CriteriaMapper,
    initials: &Vec<String>,
    resolver: CargoResolverVersion,
    dev_pass: bool,
    out: &mut Vec<CriteriaSet>,
)
    requires
        mapper.wf(),
        package_graph::describes(packages@, *graph),
        forall|j: int|
            0 <= j < initials@.len() ==> package_graph::graph_packages(*graph).dom().contains(
                (#[trigger] initials@[j])@,
            ),
        old(out)@.len() == packages@.len(),
    ensures
        final(out)@.len() == packages@.len(),
        forall|p: int, i: int|
            0 <= p < packages@.len() ==> #[trigger] final(out)@[p].has(i) == (old(out)@[p].has(i)
                || graph_build(
                *graph,
                resolver,
                *config,
                *mapper,
                packages@,
                package_graph::id_set(initials@),
                dev_pass,
            ).requires_criterion(p, i)),
{
    let features = read_features(graph, packages, initials, dev_pass, resolver);
    let positions = find_packages(graph, packages, initials);
    let ghost a = graph_build(
        *graph,
        resolver,
        *config,
        *mapper,
        packages@,
        package_graph::id_set(initials@),
        dev_pass,
    );
    let ghost b = build_model(*config, *mapper, packages@, features, positions@, dev_pass);
    proof {
        assert(a.enabled =~= b.enabled);
        assert(a.initials =~= b.initials) by {
            assert forall|p: int| #[trigger] a.initials.contains(p) implies b.initials.contains(
                p,
            ) by {
                let j = choose|j: int|
                    0 <= j < initials@.len() && (#[trigger] initials@[j])@ == packages@[p].id@;
                assert(packages@[positions@[j] as int].id@ == packages@[p].id@);
                assert(positions@[j] == p);
            }
            assert forall|p: int| #[trigger] b.initials.contains(p) implies a.initials.contains(
                p,
            ) by {
                let j = choose|j: int| 0 <= j < positions@.len() && positions@[j] == p;
                assert(initials@[j]@ == packages@[p].id@);
            }
        }
        assert(packages::links_ok(packages@)) by {
            assert forall|p: int, k: int|
                0 <= p < packages@.len() && 0 <= k < packages@[p].links@.len() implies (
            #[trigger] packages@[p].links@[k]).to < packages@.len() by {
                assert(package_graph::links_match(*graph, packages@[p], packages@));
            }
        }
    }
    propagate_requirements(config, mapper, packages, &features, &positions, dev_pass, out);
}

/// Whether the workspace asks the criterion `i` of the package `p`: its
/// development build does, or the build of one of its roots.
pub open spec fn workspace_requires(
    graph: PackageGraph,
    resolver: CargoResolverVersion,
    config: ConfigFile,
    mapper: CriteriaMapper,
    packages: Seq<Package>,
    p: int,
    i: int,
) -> bool {
    graph_build(
        graph,
        resolver,
        config,
        mapper,
        packages,
        package_graph::workspace_members(graph),
        true,
    ).requires_criterion(p, i) || exists|root: Seq<char>|
        package_graph::workspace_roots(graph).contains(root) && #[trigger] graph_build(
            graph,
            resolver,
            config,
            mapper,
            packages,
            set![root],
            false,
        ).requires_criterion(p, i)
}

/// The criteria that each third-party package has to meet.
pub fn resolve_requirements(
    graph: &PackageGraph,
    packages: &Vec<Package>,
    config: &ConfigFile,
    mapper: &CriteriaMapper,
    resolver: CargoResolverVersion,
) -> (r: Vec<CriteriaSet>)
    requires
        mapper.wf(),
        package_graph::describes(packages@, *graph),
    ensures
        r@.len() == packages@.len(),
        forall|p: int, i: int|
            0 <= p < packages@.len() ==> #[trigger] r@[p].has(i) == workspace_requires(
                *graph,
                resolver,
                *config,
                *mapper,
                packages@,
                p,
                i,
            ),
{
    let mut out: Vec<CriteriaSet> = Vec::new();
    let mut j: usize = 0;
    while j < packages.len()
        invariant
            j <= packages@.len(),
            out@.len() == j,
            forall|p: int, i: int| 0 <= p < j ==> !(#[trigger] out@[p].has(i)),
        decreases packages@.len() - j,
    {
        out.push(CriteriaSet::none());
        j = j + 1;
    }
    let members = workspace_ids(graph);
    proof {
        assert(package_graph::id_set(members@) =~= package_graph::workspace_members(*graph));
    }
    resolve_requirements_for_build(
        graph,
        packages,
        config,
        mapper,
        &members,
        resolver,
        true,
        &mut out,
    );
    let roots = workspace_root_ids(graph);
    j = 0;
    while j < roots.len()
        invariant
            mapper.wf(),
            package_graph::describes(packages@, *graph),
            package_graph::lists(roots@, package_graph::workspace_roots(*graph)),
            forall|k: int|
                0 <= k < roots@.len() ==> package_graph::graph_packages(*graph).dom().contains(
                    (#[trigger] roots@[k])@,
                ),
            j <= roots@.len(),
            out@.len() == packages@.len(),
            forall|p: int, i: int|
                0 <= p < packages@.len() ==> #[trigger] out@[p].has(i) == (graph_build(
                    *graph,
                    resolver,
                    *config,
                    *mapper,
                    packages@,
                    package_graph::workspace_members(*graph),
                    true,
                ).requires_criterion(p, i) || exists|x: int|
                    0 <= x < j && graph_build(
                        *graph,
                        resolver,
                        *config,
                        *mapper,
                        packages@,
                        set![(#[trigger] roots@[x])@],
                        false,
                    ).requires_criterion(p, i)),
        decreases roots@.len() - j,
    {
        let mut single: Vec<String> = Vec::new();
        single.push(roots[j].clone());
        proof {
            assert(package_graph::id_set(single@) =~= set![roots@[j as int]@]) by {
                assert(single@[0]@ == roots@[j as int]@);
            }
        }
        let ghost before = out@;
        resolve_requirements_for_build(
            graph,
            packages,
            config,
            mapper,
            &single,
            resolver,
            false,
            &mut out,
        );
        proof {
            assert forall|p: int, i: int| 0 <= p < packages@.len() implies #[trigger] out@[p].has(i)
                == (graph_build(
                *graph,
                resolver,
                *config,
                *mapper,
                packages@,
                package_graph::workspace_members(*graph),
                true,
            ).requires_criterion(p, i) || exists|x: int|
                0 <= x < j + 1 && graph_build(
                    *graph,
                    resolver,
                    *config,
                    *mapper,
                    packages@,
                    set![(#[trigger] roots@[x])@],
                    false,
                ).requires_criterion(p, i)) by {
                assert(before[p].has(i) || !before[p].has(i));
                let last = roots@[j as int];
            }
        }
        j = j + 1;
    }
    proof {
        assert forall|p: int, i: int| 0 <= p < packages@.len() implies #[trigger] out@[p].has(i)
            == workspace_requires(*graph, resolver, *config, *mapper, packages@, p, i) by {
            if exists|root: Seq<char>|
                package_graph::workspace_roots(*graph).contains(root) && #[trigger] graph_build(
                    *graph,
                    resolver,
                    *config,
                    *mapper,
                    packages@,
                    set![root],
                    false,
                ).requires_criterion(p, i) {
                let root = choose|root: Seq<char>|
                    package_graph::workspace_roots(*graph).contains(root) && #[trigger] graph_build(
                        *graph,
                        resolver,
                        *config,
                        *mapper,
                        packages@,
                        set![root],
                        false,
                    ).requires_criterion(p, i);
                let x = choose|x: int| 0 <= x < roots@.len() && (#[trigger] roots@[x])@ == root;
                assert(roots@[x]@ == root);
            }
        }
    }
    out
}

} // verus!
