//! Which audits to suggest.

use vstd::prelude::*;
use crate::audit_graph;
use crate::audit_graph::{AuditGraph, SearchFailure};
use crate::criteria;
use crate::criteria::{CriteriaMapper, CriteriaSet};
use crate::delta;
use crate::delta::{recommendation_eq, DiffRecommendation, DiffRecommendationView};
use crate::edges::SearchMode;
use crate::order;
use crate::order::{sort_positions, Keyed};
use crate::packages::Package;
use crate::records::{source_eq, AuditsFile, CratesSourceId, CratesSourceIdView, Store, TrustEntry};
use crate::retain;
use crate::sorted_map;
use crate::sorted_map::SortedMap;
use crate::text;
use crate::text::{clone_opt_text, clone_texts, join_texts, push_text_key, text_eq, texts_contain};
use crate::version;
use crate::version::{semver_eq, Version, VersionView, VetVersion, VetVersionView};

verus! {

/// Who published a release, as it is shown.
#[derive(Debug, PartialEq, Eq)]
pub struct CratesPublisherSource {
    /// What commands know the publisher by.
    pub identifier: String,
    /// What the publisher is called.
    pub title: String,
}

/// The contents of a [`CratesPublisherSource`].
#[verifier::ext_equal]
pub struct CratesPublisherSourceView {
    pub identifier: Seq<char>,
    pub title: Seq<char>,
}

impl View for CratesPublisherSource {
    type V = CratesPublisherSourceView;

    open spec fn view(&self) -> CratesPublisherSourceView {
        CratesPublisherSourceView { identifier: self.identifier@, title: self.title@ }
    }
}

impl Clone for CratesPublisherSource {
    fn clone(&self) -> (r: CratesPublisherSource)
        ensures
            r@ == self@,
    {
        CratesPublisherSource { identifier: self.identifier.clone(), title: self.title.clone() }
    }
}

/// The hint that the publisher of a package could be trusted.
#[derive(Debug, PartialEq, Eq)]
pub struct TrustHint {
    /// Who trusts the publisher.
    pub trusted_by: Vec<String>,
    pub publisher: CratesPublisherSource,
    /// Whether the publisher published the version in question, and not another
    /// one.
    pub exact_version: bool,
}

/// The contents of a [`TrustHint`].
#[verifier::ext_equal]
pub struct TrustHintView {
    pub trusted_by: Seq<Seq<char>>,
    pub publisher: CratesPublisherSourceView,
    pub exact_version: bool,
}

impl View for TrustHint {
    type V = TrustHintView;

    open spec fn view(&self) -> TrustHintView {
        TrustHintView {
            trusted_by: text::texts(self.trusted_by@),
            publisher: self.publisher@,
            exact_version: self.exact_version,
        }
    }
}

impl Clone for TrustHint {
    fn clone(&self) -> (r: TrustHint)
        ensures
            r@ == self@,
    {
        TrustHint {
            trusted_by: clone_texts(&self.trusted_by),
            publisher: self.publisher.clone(),
            exact_version: self.exact_version,
        }
    }
}

/// The suggestion to import the audits of another project.
#[derive(Debug, PartialEq, Eq)]
pub struct RegistrySuggestion {
    pub name: String,
    pub url: Vec<String>,
    /// What would be left to audit.
    pub diff: DiffRecommendation,
}

/// The contents of a [`RegistrySuggestion`].
#[verifier::ext_equal]
pub struct RegistrySuggestionView {
    pub name: Seq<char>,
    pub url: Seq<Seq<char>>,
    pub diff: DiffRecommendationView,
}

impl View for RegistrySuggestion {
    type V = RegistrySuggestionView;

    open spec fn view(&self) -> RegistrySuggestionView {
        RegistrySuggestionView {
            name: self.name@,
            url: text::texts(self.url@),
            diff: self.diff@,
        }
    }
}

impl Clone for RegistrySuggestion {
    fn clone(&self) -> (r: RegistrySuggestion)
        ensures
            r@ == self@,
    {
        RegistrySuggestion {
            name: self.name.clone(),
            url: clone_texts(&self.url),
            diff: self.diff.clone(),
        }
    }
}

/// A suggested audit.
#[derive(Debug, PartialEq, Eq)]
pub struct SuggestItem {
    /// The position of the package.
    pub package: usize,
    pub suggested_criteria: CriteriaSet,
    pub suggested_diff: DiffRecommendation,
    /// The names of packages that depend on the package.
    pub notable_parents: Vec<String>,
    pub publisher_login: Option<String>,
    pub trust_hint: Option<TrustHint>,
    pub is_sole_publisher: bool,
    pub registry_suggestion: Vec<RegistrySuggestion>,
}

/// The contents of a [`SuggestItem`].
#[verifier::ext_equal]
pub struct SuggestItemView {
    pub package: usize,
    pub suggested_criteria: CriteriaSet,
    pub suggested_diff: DiffRecommendationView,
    pub notable_parents: Seq<Seq<char>>,
    pub publisher_login: Option<Seq<char>>,
    pub trust_hint: Option<TrustHintView>,
    pub is_sole_publisher: bool,
    pub registry_suggestion: Seq<RegistrySuggestionView>,
}

/// The contents of an optional hint.
pub open spec fn opt_hint(h: Option<TrustHint>) -> Option<TrustHintView> {
    match h {
        Some(h) => Some(h@),
        None => None,
    }
}

impl View for SuggestItem {
    type V = SuggestItemView;

    open spec fn view(&self) -> SuggestItemView {
        SuggestItemView {
            package: self.package,
            suggested_criteria: self.suggested_criteria,
            suggested_diff: self.suggested_diff@,
            notable_parents: text::texts(self.notable_parents@),
            publisher_login: text::opt_text(self.publisher_login),
            trust_hint: opt_hint(self.trust_hint),
            is_sole_publisher: self.is_sole_publisher,
            registry_suggestion: sorted_map::views(self.registry_suggestion@),
        }
    }
}

/// A copy of a list of suggestions.
fn clone_registry(v: &Vec<RegistrySuggestion>) -> (r: Vec<RegistrySuggestion>)
    ensures
        sorted_map::views(r@) == sorted_map::views(v@),
{
    let mut r: Vec<RegistrySuggestion> = Vec::new();
    let mut i: usize = 0;
    while i < v.len()
        invariant
            i <= v@.len(),
            r@.len() == i,
            forall|x: int| 0 <= x < i ==> (#[trigger] r@[x])@ == v@[x]@,
        decreases v@.len() - i,
    {
        r.push(v[i].clone());
        i = i + 1;
    }
    assert(sorted_map::views(r@) =~= sorted_map::views(v@));
    r
}

impl Clone for SuggestItem {
    fn clone(&self) -> (r: SuggestItem)
        ensures
            r@ == self@,
    {
        SuggestItem {
            package: self.package,
            suggested_criteria: self.suggested_criteria,
            suggested_diff: self.suggested_diff.clone(),
            notable_parents: clone_texts(&self.notable_parents),
            publisher_login: clone_opt_text(&self.publisher_login),
            trust_hint: match &self.trust_hint {
                Some(hint) => Some(hint.clone()),
                None => None,
            },
            is_sole_publisher: self.is_sole_publisher,
            registry_suggestion: clone_registry(&self.registry_suggestion),
        }
    }
}

/// What to audit.
#[derive(Debug)]
pub struct Suggest {
    pub suggestions: Vec<SuggestItem>,
    /// The suggestions, by the criteria that they are for.
    pub suggestions_by_criteria: SortedMap<Vec<SuggestItem>>,
    /// The number of lines of all suggestions.
    pub total_lines: u64,
    pub warnings: Vec<String>,
}

/// The name that stands for the project itself.
pub open spec fn this_project() -> Seq<char> {
    "this project"@
}

/// Whether a list of decisions trusts a source.
pub open spec fn trusts(list: Seq<TrustEntry>, source: CratesSourceIdView) -> bool {
    exists|j: int| 0 <= j < list.len() && (#[trigger] list[j]).source@ == source
}

/// Whether decisions for any package trust a source.
pub open spec fn map_trusts(map: SortedMap<Vec<TrustEntry>>, source: CratesSourceIdView) -> bool {
    exists|k: int|
        0 <= k < map.entries().len() && trusts((#[trigger] map.entries()[k]).1@, source)
}

/// Which imports trust a source.
pub open spec fn trusting_imports(store: Store, source: CratesSourceIdView) -> Seq<Seq<char>> {
    let imports = store.live().audits;
    retain::kept(
        imports.keys(),
        Seq::new(
            imports.keys().len(),
            |k: int| map_trusts(imports.entries()[k].1.trusted, source),
        ),
    )
}

/// Who trusts a source: this project alone if it does, and otherwise the imports
/// that do.
pub open spec fn trusted_by(store: Store, source: CratesSourceIdView) -> Seq<Seq<char>> {
    let imports = trusting_imports(store, source);
    if map_trusts(store.audits.trusted, source) || imports.contains(this_project()) {
        seq![this_project()]
    } else {
        imports
    }
}

/// The last of some sources that anyone trusts.
pub open spec fn last_trusted(store: Store, sources: Seq<CratesSourceIdView>) -> Option<
    CratesSourceIdView,
>
    decreases sources.len(),
{
    if sources.len() == 0 {
        None
    } else if trusted_by(store, sources.last()).len() > 0 {
        Some(sources.last())
    } else {
        last_trusted(store, sources.drop_last())
    }
}

/// A publisher that could be trusted.
#[derive(Debug)]
pub struct TrustSource {
    pub source: CratesSourceId,
    pub trusted_by: Vec<String>,
    pub exact_version: bool,
}

/// The publisher to hint at: the one of the version in question if anyone trusts
/// it, and otherwise, unless the project trusts someone for the package, the one
/// of the latest release whose publisher anyone trusts.
pub open spec fn hinted_source(
    store: Store,
    package: Seq<char>,
    publisher: Option<CratesSourceIdView>,
    releases: Seq<CratesSourceIdView>,
) -> Option<(CratesSourceIdView, bool)> {
    if publisher is Some && trusted_by(store, publisher->0).len() > 0 {
        Some((publisher->0, true))
    } else if store.audits.trusted.get_spec(package) is None {
        match last_trusted(store, releases) {
            Some(source) => Some((source, false)),
            None => None,
        }
    } else {
        None
    }
}

/// The contents of a list of sources.
pub open spec fn sources(s: Seq<CratesSourceId>) -> Seq<CratesSourceIdView> {
    s.map_values(|x: CratesSourceId| x@)
}

fn list_trusts(list: &Vec<TrustEntry>, source: &CratesSourceId) -> (r: bool)
    ensures
        r == trusts(list@, source@),
{
    let mut j: usize = 0;
    while j < list.len()
        invariant
            j <= list@.len(),
            forall|x: int| 0 <= x < j ==> (#[trigger] list@[x]).source@ != source@,
        decreases list@.len() - j,
    {
        if source_eq(&list[j].source, source) {
            assert(list@[j as int].source@ == source@);
            return true;
        }
        j = j + 1;
    }
    false
}

fn any_trusts(map: &SortedMap<Vec<TrustEntry>>, source: &CratesSourceId) -> (r: bool)
    ensures
        r == map_trusts(*map, source@),
{
    let mut k: usize = 0;
    while k < map.len()
        invariant
            k <= map.entries().len(),
            forall|x: int|
                0 <= x < k ==> !trusts((#[trigger] map.entries()[x]).1@, source@),
        decreases map.entries().len() - k,
    {
        if list_trusts(map.value_at(k), source) {
            assert(trusts(map.entries()[k as int].1@, source@));
            return true;
        }
        k = k + 1;
    }
    false
}

fn list_trusting_imports(store: &Store, source: &CratesSourceId) -> (r: Vec<String>)
    ensures
        text::texts(r@) == trusting_imports(*store, source@),
{
    let imports = store.imported_audits();
    let ghost keys = imports.keys();
    let ghost flags = Seq::new(
        keys.len(),
        |k: int| map_trusts(imports.entries()[k].1.trusted, source@),
    );
    let mut r: Vec<String> = Vec::new();
    let mut k: usize = 0;
    assert(text::texts(r@) =~= retain::kept(keys.take(0), flags));
    while k < imports.len()
        invariant
            *imports == store.live().audits,
            keys == imports.keys(),
            flags == Seq::new(
                keys.len(),
                |k: int| map_trusts(imports.entries()[k].1.trusted, source@),
            ),
            k <= imports.entries().len(),
            text::texts(r@) == retain::kept(keys.take(k as int), flags),
        decreases imports.entries().len() - k,
    {
        let ghost before = r@;
        proof {
            assert(keys.take(k + 1).drop_last() =~= keys.take(k as int));
            assert(keys.take(k + 1).last() == imports.entries()[k as int].0@);
        }
        if any_trusts(&imports.value_at(k).trusted, source) {
            r.push(imports.key_at(k).clone());
            assert(text::texts(r@) =~= text::texts(before).push(keys[k as int]));
        }
        k = k + 1;
    }
    proof {
        assert(keys.take(k as int) =~= keys);
        let wanted = Seq::new(
            store.live().audits.keys().len(),
            |k: int| map_trusts(store.live().audits.entries()[k].1.trusted, source@),
        );
        assert(flags =~= wanted);
    }
    r
}

/// Who trusts a source.
pub fn list_trusted_by(store: &Store, source: &CratesSourceId) -> (r: Vec<String>)
    ensures
        text::texts(r@) == trusted_by(*store, source@),
{
    let imports = list_trusting_imports(store, source);
    if any_trusts(&store.audits.trusted, source) || texts_contain(&imports, "this project") {
        let mut own: Vec<String> = Vec::new();
        own.push("this project".to_owned());
        assert(text::texts(own@) =~= seq![this_project()]);
        return own;
    }
    imports
}

/// The publisher to hint at, given who published the version in question and who
/// published the releases of the package, from the oldest to the latest.
pub fn find_trust_source(
    store: &Store,
    package: &str,
    publisher: Option<&CratesSourceId>,
    releases: &Vec<CratesSourceId>,
) -> (r: Option<TrustSource>)
    ensures
        ({
            let wanted = hinted_source(
                *store,
                package@,
                match publisher {
                    Some(p) => Some(p@),
                    None => None,
                },
                sources(releases@),
            );
            match r {
                Some(t) => wanted == Some((t.source@, t.exact_version)) && text::texts(
                    t.trusted_by@,
                ) == trusted_by(*store, t.source@),
                None => wanted is None,
            }
        }),
{
    if let Some(p) = publisher {
        let trusted = list_trusted_by(store, p);
        if trusted.len() > 0 {
            return Some(
                TrustSource { source: p.clone(), trusted_by: trusted, exact_version: true },
            );
        }
    }
    if store.audits.trusted.contains_key(package) {
        return None;
    }
    let ghost s = sources(releases@);
    let mut i: usize = releases.len();
    assert(s.take(i as int) =~= s);
    while i > 0
        invariant
            s == sources(releases@),
            i <= releases@.len(),
            last_trusted(*store, s) == last_trusted(*store, s.take(i as int)),
            hinted_source(
                *store,
                package@,
                match publisher {
                    Some(p) => Some(p@),
                    None => None,
                },
                s,
            ) == (match last_trusted(*store, s) {
                Some(source) => Some((source, false)),
                None => None::<(CratesSourceIdView, bool)>,
            }),
        decreases i,
    {
        let trusted = list_trusted_by(store, &releases[i - 1]);
        assert(s.take(i as int).last() == releases@[i - 1]@);
        if trusted.len() > 0 {
            return Some(
                TrustSource {
                    source: releases[i - 1].clone(),
                    trusted_by: trusted,
                    exact_version: false,
                },
            );
        }
        assert(s.take(i as int).drop_last() =~= s.take(i - 1));
        i = i - 1;
    }
    None
}

/// A release of a package, with who published it if that is known.
#[derive(Debug)]
pub struct Release {
    pub version: Version,
    pub source: Option<CratesSourceId>,
}

/// The contents of a [`Release`].
#[verifier::ext_equal]
pub struct ReleaseView {
    pub version: VersionView,
    pub source: Option<CratesSourceIdView>,
}

impl View for Release {
    type V = ReleaseView;

    open spec fn view(&self) -> ReleaseView {
        ReleaseView {
            version: self.version@,
            source: match self.source {
                Some(s) => Some(s@),
                None => None,
            },
        }
    }
}

/// Who published a version, if that is known: the source of its first release.
pub open spec fn publisher_of(releases: Seq<ReleaseView>, v: VersionView) -> Option<
    CratesSourceIdView,
>
    decreases releases.len(),
{
    if releases.len() == 0 {
        None
    } else if releases[0].version == v {
        releases[0].source
    } else {
        publisher_of(releases.drop_first(), v)
    }
}

/// Who published a version, if that is known. Nobody publishes a Git revision.
pub fn find_publisher<'a>(releases: &'a Vec<Release>, version: &VetVersion) -> (r: Option<
    &'a CratesSourceId,
>)
    ensures
        (match r {
            Some(s) => Some(s@),
            None => None,
        }) == if version.git_rev is None {
            publisher_of(sorted_map::views(releases@), version.semver@)
        } else {
            None
        },
{
    let semver = match version.as_semver() {
        Some(semver) => semver,
        None => {
            return None;
        },
    };
    let ghost s = sorted_map::views(releases@);
    let mut i: usize = 0;
    assert(s.skip(0) =~= s);
    while i < releases.len()
        invariant
            version.git_rev is None,
            *semver == version.semver,
            s == sorted_map::views(releases@),
            i <= releases@.len(),
            publisher_of(s, semver@) == publisher_of(s.skip(i as int), semver@),
        decreases releases@.len() - i,
    {
        let release = &releases[i];
        assert(s.skip(i as int)[0] == release@);
        if semver_eq(&release.version, semver) {
            return match &release.source {
                Some(source) => Some(source),
                None => None,
            };
        }
        assert(s.skip(i as int).drop_first() =~= s.skip(i + 1));
        i = i + 1;
    }
    None
}

/// The known publishers of releases.
pub open spec fn known_sources(releases: Seq<ReleaseView>) -> Seq<CratesSourceIdView>
    decreases releases.len(),
{
    if releases.len() == 0 {
        Seq::empty()
    } else {
        let rest = known_sources(releases.drop_last());
        match releases.last().source {
            Some(source) => rest.push(source),
            None => rest,
        }
    }
}

/// The known publishers of releases, in order.
pub fn list_publishers(releases: &Vec<Release>) -> (r: Vec<CratesSourceId>)
    ensures
        sources(r@) == known_sources(sorted_map::views(releases@)),
{
    let ghost s = sorted_map::views(releases@);
    let mut r: Vec<CratesSourceId> = Vec::new();
    let mut i: usize = 0;
    assert(sources(r@) =~= known_sources(s.take(0)));
    while i < releases.len()
        invariant
            s == sorted_map::views(releases@),
            i <= releases@.len(),
            sources(r@) == known_sources(s.take(i as int)),
        decreases releases@.len() - i,
    {
        let ghost before = r@;
        proof {
            assert(s.take(i + 1).drop_last() =~= s.take(i as int));
            assert(s.take(i + 1).last() == releases@[i as int]@);
        }
        if let Some(source) = &releases[i].source {
            r.push(source.clone());
            assert(sources(r@) =~= sources(before).push(source@));
        }
        i = i + 1;
    }
    assert(s.take(i as int) =~= s);
    r
}

/// The version that imports are to vet: that of the package, or the published
/// version that a Git revision starts from. None if a Git revision is to be
/// audited, which is not looked for among imports.
pub open spec fn import_target(
    version: VetVersionView,
    suggested: DiffRecommendationView,
    extra: Option<DiffRecommendationView>,
) -> Option<VetVersionView> {
    if suggested.to.git_rev is Some {
        None
    } else {
        match extra {
            Some(d) => Some(
                match d.from {
                    Some(from) => from,
                    None => version,
                },
            ),
            None => Some(version),
        }
    }
}

/// The version that imports are to vet, if they are looked at.
pub fn find_import_target(
    version: &VetVersion,
    suggested: &DiffRecommendation,
    extra: &Option<DiffRecommendation>,
) -> (r: Option<VetVersion>)
    ensures
        version::node(r) == import_target(version@, suggested@, delta::opt_recommendation(*extra)),
{
    if suggested.to.git_rev.is_some() {
        return None;
    }
    if let Some(d) = extra {
        if let Some(from) = &d.from {
            return Some(from.clone());
        }
    }
    Some(version.clone())
}

/// Whether all sources are the same one, and there is one.
pub open spec fn is_sole(s: Seq<CratesSourceIdView>) -> bool {
    s.len() > 0 && forall|i: int| 0 <= i < s.len() ==> #[trigger] s[i] == s[0]
}

/// Whether all releases of a package were published by the same source.
pub fn is_sole_publisher(releases: &Vec<CratesSourceId>) -> (r: bool)
    ensures
        r == is_sole(sources(releases@)),
{
    let ghost s = sources(releases@);
    if releases.len() == 0 {
        return false;
    }
    let mut i: usize = 0;
    while i < releases.len()
        invariant
            s == sources(releases@),
            releases@.len() > 0,
            i <= releases@.len(),
            forall|x: int| 0 <= x < i ==> #[trigger] s[x] == s[0],
        decreases releases@.len() - i,
    {
        assert(s[i as int] == releases@[i as int]@);
        if !source_eq(&releases[i], &releases[0]) {
            assert(s[i as int] != s[0]);
            return false;
        }
        i = i + 1;
    }
    true
}

/// Whether a package depends on another.
pub open spec fn depends_on(package: Package, p: int) -> bool {
    exists|k: int| 0 <= k < package.links@.len() && (#[trigger] package.links@[k]).to == p
}

/// The names of the packages that depend on a package.
pub open spec fn parents(packages: Seq<Package>, p: int) -> Seq<Seq<char>> {
    retain::kept(
        packages.map_values(|q: Package| q.name@),
        Seq::new(packages.len(), |q: int| depends_on(packages[q], p)),
    )
}

/// The names of the packages that depend on a package.
pub fn notable_parents(packages: &Vec<Package>, p: usize) -> (r: Vec<String>)
    ensures
        text::texts(r@) == parents(packages@, p as int),
{
    let ghost names = packages@.map_values(|q: Package| q.name@);
    let ghost flags = Seq::new(packages@.len(), |q: int| depends_on(packages@[q], p as int));
    let mut r: Vec<String> = Vec::new();
    let mut q: usize = 0;
    assert(text::texts(r@) =~= retain::kept(names.take(0), flags));
    while q < packages.len()
        invariant
            names == packages@.map_values(|q: Package| q.name@),
            flags == Seq::new(packages@.len(), |q: int| depends_on(packages@[q], p as int)),
            q <= packages@.len(),
            text::texts(r@) == retain::kept(names.take(q as int), flags),
        decreases packages@.len() - q,
    {
        let ghost before = r@;
        proof {
            assert(names.take(q + 1).drop_last() =~= names.take(q as int));
            assert(names.take(q + 1).last() == packages@[q as int].name@);
        }
        if links_to(&packages[q], p) {
            r.push(packages[q].name.clone());
            assert(text::texts(r@) =~= text::texts(before).push(names[q as int]));
        }
        q = q + 1;
    }
    assert(names.take(q as int) =~= names);
    r
}

fn links_to(package: &Package, p: usize) -> (r: bool)
    ensures
        r == depends_on(*package, p as int),
{
    let mut k: usize = 0;
    while k < package.links.len()
        invariant
            k <= package.links@.len(),
            forall|x: int| 0 <= x < k ==> (#[trigger] package.links@[x]).to != p,
        decreases package.links@.len() - k,
    {
        if package.links[k].to == p {
            return true;
        }
        k = k + 1;
    }
    false
}

/// Whether the searches for some criteria come to these failures, in the order
/// of the criteria.
pub open spec fn are_failures(
    s: Seq<audit_graph::EdgeView>,
    version: version::VetVersionView,
    indices: Seq<usize>,
    failures: Seq<SearchFailure>,
) -> bool
    decreases indices.len(),
{
    if indices.len() == 0 {
        failures.len() == 0
    } else {
        let i = indices.last() as int;
        let q = audit_graph::to_root(s, i, version, SearchMode::PreferExemptions);
        if q.reachable(None) {
            are_failures(s, version, indices.drop_last(), failures)
        } else {
            failures.len() > 0 && audit_graph::is_search_result(
                s,
                i,
                version,
                SearchMode::PreferExemptions,
                Err(failures.last()),
            ) && are_failures(s, version, indices.drop_last(), failures.drop_last())
        }
    }
}

/// What would still fail if the audits of another project were imported. `None`
/// if those audits are at odds with others.
pub fn registry_failures(
    store: &Store,
    criteria_mapper: &CriteriaMapper,
    package: &str,
    audits: &AuditsFile,
    target: &VetVersion,
    criteria_failures: &CriteriaSet,
) -> (r: Option<Vec<SearchFailure>>)
    requires
        criteria_mapper.wf(),
    ensures
        match r {
            Some(failures) => audit_graph::store_conflicts(
                *store,
                *criteria_mapper,
                package@,
                Some(*audits),
            ).len() == 0 && are_failures(
                audit_graph::store_edges(*store, *criteria_mapper, package@, Some(*audits)),
                target@,
                criteria::indices(*criteria_failures),
                failures@,
            ),
            None => audit_graph::store_conflicts(
                *store,
                *criteria_mapper,
                package@,
                Some(*audits),
            ).len() > 0,
        },
{
    let graph = match AuditGraph::build(store, criteria_mapper, package, Some(audits)) {
        Ok(graph) => graph,
        Err(_) => {
            return None;
        },
    };
    let ghost s = audit_graph::store_edges(*store, *criteria_mapper, package@, Some(*audits));
    let indices = criteria_failures.indices();
    let mut failures: Vec<SearchFailure> = Vec::new();
    let mut k: usize = 0;
    assert(are_failures(s, target@, indices@.take(0), failures@));
    while k < indices.len()
        invariant
            graph.wf(),
            graph.models(s),
            k <= indices@.len(),
            are_failures(s, target@, indices@.take(k as int), failures@),
        decreases indices@.len() - k,
    {
        proof {
            assert(indices@.take(k + 1).drop_last() =~= indices@.take(k as int));
            assert(indices@.take(k + 1).last() == indices@[k as int]);
        }
        let ghost before = failures@;
        match graph.search(indices[k], target, SearchMode::PreferExemptions) {
            Ok(_) => {},
            Err(failure) => {
                failures.push(failure);
                assert(failures@.drop_last() =~= before);
                assert(failures@.last() == failure);
            },
        }
        k = k + 1;
    }
    assert(indices@.take(k as int) =~= indices@);
    Some(failures)
}

/// Whether the registry is asked for audits that could be imported: unless that is
/// switched off, where people read the output, and if there is a network.
pub fn asks_registry(no_registry_suggestions: bool, human_output: bool, has_network: bool) -> (r:
    bool)
    ensures
        r == (!no_registry_suggestions && human_output && has_network),
{
    !no_registry_suggestions && human_output && has_network
}

/// The suggestions that leave fewer lines than a limit.
pub open spec fn below(s: Seq<RegistrySuggestionView>, limit: int) -> Seq<RegistrySuggestionView> {
    retain::kept(s, Seq::new(s.len(), |j: int| s[j].diff.diffstat.lines() < limit))
}

/// The keys that order suggestions by the lines that they leave.
pub open spec fn line_keys(s: Seq<RegistrySuggestionView>) -> Seq<Seq<u64>> {
    s.map_values(|x: RegistrySuggestionView| seq![x.diff.diffstat.lines() as u64])
}

/// The items of a list at some positions.
pub open spec fn pick_items<V>(s: Seq<V>, positions: Seq<usize>) -> Seq<V> {
    positions.map_values(|p: usize| s[p as int])
}

/// Keeps the suggestions that leave fewer lines than the suggested audit has,
/// and sorts them by that.
pub fn rank_registry(
    found: &Vec<RegistrySuggestion>,
    suggested: &DiffRecommendation,
) -> (r: Vec<RegistrySuggestion>)
    requires
        suggested.diffstat.wf(),
        forall|i: int| 0 <= i < found@.len() ==> (#[trigger] found@[i]).diff.diffstat.wf(),
    ensures
        exists|order: Seq<usize>| #[trigger]
            order::is_stable_order(
                line_keys(below(sorted_map::views(found@), suggested.diffstat.lines())),
                order,
            ) && sorted_map::views(r@) == pick_items(
                below(sorted_map::views(found@), suggested.diffstat.lines()),
                order,
            ),
{
    let limit: u64 = suggested.diffstat.count();
    let ghost l = sorted_map::views(found@);
    let ghost flags = Seq::new(l.len(), |j: int| l[j].diff.diffstat.lines() < limit);
    let mut kept: Vec<RegistrySuggestion> = Vec::new();
    let mut keys: Vec<Vec<u64>> = Vec::new();
    let mut i: usize = 0;
    assert(sorted_map::views(kept@) =~= retain::kept(l.take(0), flags));
    while i < found.len()
        invariant
            forall|i: int| 0 <= i < found@.len() ==> (#[trigger] found@[i]).diff.diffstat.wf(),
            l == sorted_map::views(found@),
            flags == Seq::new(l.len(), |j: int| l[j].diff.diffstat.lines() < limit),
            i <= found@.len(),
            sorted_map::views(kept@) == retain::kept(l.take(i as int), flags),
            order::key_views(keys@) =~= line_keys(sorted_map::views(kept@)),
        decreases found@.len() - i,
    {
        let ghost before = kept@;
        let ghost keys0 = keys@;
        proof {
            assert(l.take(i + 1).drop_last() =~= l.take(i as int));
            assert(l.take(i + 1).last() == found@[i as int]@);
        }
        let lines: u64 = found[i].diff.diffstat.count();
        if lines < limit {
            kept.push(found[i].clone());
            let mut key: Vec<u64> = Vec::new();
            key.push(lines);
            keys.push(key);
            proof {
                assert(sorted_map::views(kept@) =~= sorted_map::views(before).push(
                    found@[i as int]@,
                ));
                assert(key@ =~= seq![found@[i as int]@.diff.diffstat.lines() as u64]);
                assert(order::key_views(keys@) =~= order::key_views(keys0).push(key@));
                assert(line_keys(sorted_map::views(kept@)) =~= line_keys(
                    sorted_map::views(before),
                ).push(key@));
            }
        }
        i = i + 1;
    }
    proof {
        assert(l.take(i as int) =~= l);
        let wanted = Seq::new(
            l.len(),
            |j: int| l[j].diff.diffstat.lines() < suggested.diffstat.lines(),
        );
        assert(flags =~= wanted);
        assert(sorted_map::views(kept@) == below(l, suggested.diffstat.lines()));
    }
    let order = sort_positions(keys);
    let mut r: Vec<RegistrySuggestion> = Vec::new();
    let mut k: usize = 0;
    while k < order.len()
        invariant
            order::is_stable_order(line_keys(sorted_map::views(kept@)), order@),
            k <= order@.len(),
            r@.len() == k,
            forall|x: int|
                0 <= x < k ==> (#[trigger] r@[x])@ == sorted_map::views(kept@)[order@[x] as int],
        decreases order@.len() - k,
    {
        let p: usize = order[k];
        assert(p < kept@.len());
        r.push(kept[p].clone());
        k = k + 1;
    }
    assert(sorted_map::views(r@) =~= pick_items(sorted_map::views(kept@), order@));
    r
}

/// What is suggested for a package.
#[derive(Debug)]
pub struct PackageSuggestion {
    /// The position of the package.
    pub package: usize,
    pub suggested_criteria: CriteriaSet,
    pub suggested_diff: DiffRecommendation,
    pub extra_diff: Option<DiffRecommendation>,
    pub publisher_login: Option<String>,
    pub trust_hint: Option<TrustHint>,
    pub is_sole_publisher: bool,
    pub registry_suggestion: Vec<RegistrySuggestion>,
}

impl PackageSuggestion {
    /// The suggested audits: the extra one first, without hints.
    pub open spec fn items(&self, packages: Seq<Package>) -> Seq<SuggestItemView> {
        (match self.extra_diff {
            Some(diff) => seq![
                SuggestItemView {
                    package: self.package,
                    suggested_criteria: self.suggested_criteria,
                    suggested_diff: diff@,
                    notable_parents: parents(packages, self.package as int),
                    publisher_login: None,
                    trust_hint: None,
                    is_sole_publisher: false,
                    registry_suggestion: Seq::empty(),
                },
            ],
            None => Seq::empty(),
        }) + seq![
            SuggestItemView {
                package: self.package,
                suggested_criteria: self.suggested_criteria,
                suggested_diff: self.suggested_diff@,
                notable_parents: parents(packages, self.package as int),
                publisher_login: text::opt_text(self.publisher_login),
                trust_hint: opt_hint(self.trust_hint),
                is_sole_publisher: self.is_sole_publisher,
                registry_suggestion: sorted_map::views(self.registry_suggestion@),
            },
        ]
    }

    /// The suggested audits.
    pub fn into_items(self, packages: &Vec<Package>) -> (r: Vec<SuggestItem>)
        ensures
            sorted_map::views(r@) == self.items(packages@),
    {
        let mut r: Vec<SuggestItem> = Vec::new();
        let ghost wanted = self.items(packages@);
        if let Some(diff) = &self.extra_diff {
            r.push(
                SuggestItem {
                    package: self.package,
                    suggested_criteria: self.suggested_criteria,
                    suggested_diff: diff.clone(),
                    notable_parents: notable_parents(packages, self.package),
                    publisher_login: None,
                    trust_hint: None,
                    is_sole_publisher: false,
                    registry_suggestion: Vec::new(),
                },
            );
            assert(r@[0]@.registry_suggestion =~= Seq::<RegistrySuggestionView>::empty());
        }
        r.push(
            SuggestItem {
                package: self.package,
                suggested_criteria: self.suggested_criteria,
                suggested_diff: self.suggested_diff,
                notable_parents: notable_parents(packages, self.package),
                publisher_login: self.publisher_login,
                trust_hint: self.trust_hint,
                is_sole_publisher: self.is_sole_publisher,
                registry_suggestion: self.registry_suggestion,
            },
        );
        assert(sorted_map::views(r@) =~= wanted);
        r
    }
}

/// The key that orders suggested audits: lines, name and version.
pub open spec fn item_key(packages: Seq<Package>, item: SuggestItemView) -> Seq<u64> {
    seq![item.suggested_diff.diffstat.lines() as u64] + text::text_key(
        packages[item.package as int].name@,
    ) + version::vet_version_key(item.suggested_diff.to)
}

/// The keys of a list of suggested audits.
pub open spec fn item_keys(packages: Seq<Package>, s: Seq<SuggestItemView>) -> Seq<Seq<u64>> {
    s.map_values(|x: SuggestItemView| item_key(packages, x))
}

/// Whether two suggestions are for the same audit.
pub open spec fn same_audit(packages: Seq<Package>, a: SuggestItemView, b: SuggestItemView) -> bool {
    packages[a.package as int].name@ == packages[b.package as int].name@ && a.suggested_diff
        == b.suggested_diff
}

/// The suggestion with more parents.
pub open spec fn with_parents(item: SuggestItemView, more: Seq<Seq<char>>) -> SuggestItemView {
    SuggestItemView { notable_parents: item.notable_parents + more, ..item }
}

/// The position of the first suggestion of a list that is for the same audit as
/// `item`, or the length of the list.
pub open spec fn audit_position(
    packages: Seq<Package>,
    s: Seq<SuggestItemView>,
    item: SuggestItemView,
) -> int
    decreases s.len(),
{
    if s.len() == 0 {
        0
    } else {
        let k = audit_position(packages, s.drop_last(), item);
        if k < s.len() - 1 || same_audit(packages, s.last(), item) {
            k
        } else {
            s.len() as int
        }
    }
}

/// Suggestions that are for the same audit count once, where the first of them
/// stands, with the parents of all.
pub open spec fn merged(packages: Seq<Package>, s: Seq<SuggestItemView>) -> Seq<SuggestItemView>
    decreases s.len(),
{
    if s.len() == 0 {
        s
    } else {
        let rest = merged(packages, s.drop_last());
        let k = audit_position(packages, rest, s.last());
        if k < rest.len() {
            rest.update(k, with_parents(rest[k], s.last().notable_parents))
        } else {
            rest.push(s.last())
        }
    }
}

/// Whether no two suggestions are for the same audit.
pub open spec fn audits_differ(packages: Seq<Package>, s: Seq<SuggestItemView>) -> bool {
    forall|i: int, j: int|
        0 <= i < j < s.len() ==> !same_audit(packages, #[trigger] s[i], #[trigger] s[j])
}

/// Whether a suggestion stands for another: it is for the same audit, and has
/// its parents.
pub open spec fn stands_for(
    packages: Seq<Package>,
    kept: SuggestItemView,
    item: SuggestItemView,
) -> bool {
    same_audit(packages, kept, item) && forall|t: Seq<char>| #[trigger]
        item.notable_parents.contains(t) ==> kept.notable_parents.contains(t)
}

/// Whether a suggestion of a list stands for `item`.
pub open spec fn is_covered(
    packages: Seq<Package>,
    s: Seq<SuggestItemView>,
    item: SuggestItemView,
) -> bool {
    exists|k: int| 0 <= k < s.len() && stands_for(packages, #[trigger] s[k], item)
}

/// Whether a list holds the names of another, each once and in order.
pub open spec fn is_name_set(r: Seq<Seq<char>>, names: Seq<Seq<char>>) -> bool {
    &&& forall|i: int, j: int|
        0 <= i < j < r.len() ==> order::lex_lt(
            text::text_key(#[trigger] r[i]),
            text::text_key(#[trigger] r[j]),
        )
    &&& forall|t: Seq<char>| #[trigger] r.contains(t) == names.contains(t)
}

/// Whether an item is another with its parents in order and each once.
pub open spec fn is_tidied(r: SuggestItemView, item: SuggestItemView) -> bool {
    r == (SuggestItemView { notable_parents: r.notable_parents, ..item }) && is_name_set(
        r.notable_parents,
        item.notable_parents,
    )
}

/// Whether all items of a list are tidied.
pub open spec fn are_tidied(r: Seq<SuggestItemView>, s: Seq<SuggestItemView>) -> bool {
    r.len() == s.len() && forall|i: int| 0 <= i < s.len() ==> is_tidied(#[trigger] r[i], s[i])
}

/// The number of lines of all suggestions.
pub open spec fn total(s: Seq<SuggestItemView>) -> int
    decreases s.len(),
{
    if s.len() == 0 {
        0
    } else {
        total(s.drop_last()) + s.last().suggested_diff.diffstat.lines()
    }
}

/// A criterion, with the criteria that imply it.
pub open spec fn criterion_text(m: CriteriaMapper, i: usize) -> Seq<char> {
    let others = criteria::implied_by_below(m, i, m.names@.len()).map_values(
        |j: usize| "or "@ + criteria::name_of(m, j),
    );
    if others.len() == 0 {
        criteria::name_of(m, i)
    } else {
        criteria::name_of(m, i) + " ("@ + text::join(others, ", "@) + ")"@
    }
}

/// The criteria that an audit can be certified for.
pub open spec fn criteria_text(m: CriteriaMapper, set: CriteriaSet) -> Seq<char> {
    text::join(criteria::minimal(m, set).map_values(|i: usize| criterion_text(m, i)), ", "@)
}

/// The items of a list that are for the criteria that a text gives.
pub open spec fn for_criteria(m: CriteriaMapper, s: Seq<SuggestItemView>, t: Seq<char>) -> Seq<
    SuggestItemView,
> {
    retain::kept(
        s,
        Seq::new(s.len(), |j: int| criteria_text(m, s[j].suggested_criteria) == t),
    )
}

/// Whether suggestions are complete: in order, without doubles, with the sum of
/// their lines, and grouped by criteria.
pub open spec fn is_suggest(
    packages: Seq<Package>,
    m: CriteriaMapper,
    items: Seq<SuggestItemView>,
    r: Suggest,
) -> bool {
    let list = sorted_map::views(r.suggestions@);
    &&& exists|order: Seq<usize>| #[trigger]
        order::is_stable_order(item_keys(packages, items), order) && are_tidied(
            list,
            merged(packages, pick_items(items, order)),
        )
    &&& audits_differ(packages, list)
    &&& forall|i: int| 0 <= i < items.len() ==> is_covered(packages, list, #[trigger] items[i])
    &&& r.total_lines == total(list)
    &&& forall|t: Seq<char>|
        sorted_map::views_at(r.suggestions_by_criteria, t) == for_criteria(m, list, t) && ((
        #[trigger] r.suggestions_by_criteria.get_spec(t)) is Some <==> for_criteria(
            m,
            list,
            t,
        ).len() > 0)
}

fn criterion_to_text(m: &CriteriaMapper, i: usize) -> (r: String)
    requires
        m.wf(),
    ensures
        r@ == criterion_text(*m, i),
{
    let mut r: String = m.criteria_name(i);
    let indices = m.implied_by_indices(i);
    let ghost wanted = indices@.map_values(|j: usize| "or "@ + criteria::name_of(*m, j));
    if indices.len() == 0 {
        return r;
    }
    let mut others: Vec<String> = Vec::new();
    let mut k: usize = 0;
    while k < indices.len()
        invariant
            m.wf(),
            wanted == indices@.map_values(|j: usize| "or "@ + criteria::name_of(*m, j)),
            k <= indices@.len(),
            others@.len() == k,
            forall|x: int| 0 <= x < k ==> (#[trigger] others@[x])@ == wanted[x],
        decreases indices@.len() - k,
    {
        let mut other: String = "or ".to_owned();
        other.append(m.criteria_name(indices[k]).as_str());
        others.push(other);
        k = k + 1;
    }
    assert(text::texts(others@) =~= wanted);
    r.append(" (");
    r.append(join_texts(&others, ", ").as_str());
    r.append(")");
    r
}

/// The criteria that an audit can be certified for.
pub fn criteria_to_text(m: &CriteriaMapper, set: &CriteriaSet) -> (r: String)
    requires
        m.wf(),
    ensures
        r@ == criteria_text(*m, *set),
{
    let indices = m.minimal_indices(set);
    let ghost wanted = indices@.map_values(|i: usize| criterion_text(*m, i));
    let mut parts: Vec<String> = Vec::new();
    let mut k: usize = 0;
    while k < indices.len()
        invariant
            m.wf(),
            wanted == indices@.map_values(|i: usize| criterion_text(*m, i)),
            k <= indices@.len(),
            parts@.len() == k,
            forall|x: int| 0 <= x < k ==> (#[trigger] parts@[x])@ == wanted[x],
        decreases indices@.len() - k,
    {
        parts.push(criterion_to_text(m, indices[k]));
        k = k + 1;
    }
    assert(text::texts(parts@) =~= wanted);
    join_texts(&parts, ", ")
}

/// The names of a list, each once and in order.
fn name_set(names: &Vec<String>) -> (r: Vec<String>)
    ensures
        is_name_set(text::texts(r@), text::texts(names@)),
{
    let ghost t = text::texts(names@);
    let mut map: SortedMap<bool> = SortedMap::new();
    let mut i: usize = 0;
    while i < names.len()
        invariant
            t == text::texts(names@),
            i <= names@.len(),
            forall|n: Seq<char>| (#[trigger] map.get_spec(n)) is Some <==> t.take(i as int).contains(
                n,
            ),
        decreases names@.len() - i,
    {
        let ghost before = map;
        map.insert(names[i].clone(), true);
        proof {
            assert(t[i as int] == names@[i as int]@);
            let a = t.take(i as int);
            let b = t.take(i + 1);
            assert forall|n: Seq<char>| (#[trigger] map.get_spec(n)) is Some <==> b.contains(n) by {
                assert(before.get_spec(n) is Some <==> a.contains(n));
                if a.contains(n) {
                    let x = choose|x: int| 0 <= x < a.len() && a[x] == n;
                    assert(b[x] == n);
                }
                if n == names@[i as int]@ {
                    assert(b[i as int] == n);
                }
                if b.contains(n) {
                    let x = choose|x: int| 0 <= x < b.len() && b[x] == n;
                    if x < i {
                        assert(a[x] == n);
                    }
                }
            }
        }
        i = i + 1;
    }
    assert(t.take(i as int) =~= t);
    proof {
        use_type_invariant(&map);
    }
    let mut r: Vec<String> = Vec::new();
    let mut k: usize = 0;
    while k < map.len()
        invariant
            k <= map.entries().len(),
            r@.len() == k,
            forall|x: int| 0 <= x < k ==> (#[trigger] r@[x])@ == map.entries()[x].0@,
        decreases map.entries().len() - k,
    {
        r.push(map.key_at(k).clone());
        k = k + 1;
    }
    proof {
        let u = text::texts(r@);
        assert forall|i: int, j: int| 0 <= i < j < u.len() implies order::lex_lt(
            text::text_key(#[trigger] u[i]),
            text::text_key(#[trigger] u[j]),
        ) by {
            assert(u[i] == map.entries()[i].0@);
            assert(u[j] == map.entries()[j].0@);
        }
        assert forall|n: Seq<char>| #[trigger] u.contains(n) == t.contains(n) by {
            if u.contains(n) {
                let x = choose|x: int| 0 <= x < u.len() && u[x] == n;
                assert(map.entries()[x].0@ == n);
                map.lemma_get_at(x);
            }
            if t.contains(n) {
                assert(map.get_spec(n) is Some);
                let x = map.lemma_found(n);
                assert(u[x] == n);
            }
        }
    }
    r
}

/// The key that orders a suggested audit.
fn key_of_item(packages: &Vec<Package>, item: &SuggestItem) -> (r: Vec<u64>)
    requires
        item.package < packages@.len(),
        item.suggested_diff.diffstat.wf(),
    ensures
        r@ == item_key(packages@, item@),
{
    let mut key: Vec<u64> = Vec::new();
    key.push(item.suggested_diff.diffstat.count());
    push_text_key(packages[item.package].name.as_str(), &mut key);
    item.suggested_diff.to.push_key(&mut key);
    assert(key@ =~= item_key(packages@, item@));
    key
}

/// Whether an item can be sorted.
pub open spec fn item_ok(packages: Seq<Package>, item: SuggestItemView) -> bool {
    item.package < packages.len() && item.suggested_diff.diffstat.wf()
}

/// Whether all items of a list can be sorted.
pub open spec fn items_ok(packages: Seq<Package>, s: Seq<SuggestItemView>) -> bool {
    forall|i: int| 0 <= i < s.len() ==> item_ok(packages, #[trigger] s[i])
}

/// Sorts suggested audits.
fn sort_items(packages: &Vec<Package>, items: &Vec<SuggestItem>) -> (r: Vec<SuggestItem>)
    requires
        items_ok(packages@, sorted_map::views(items@)),
    ensures
        exists|order: Seq<usize>| #[trigger]
            order::is_stable_order(item_keys(packages@, sorted_map::views(items@)), order)
                && sorted_map::views(r@) == pick_items(sorted_map::views(items@), order),
{
    let ghost s = sorted_map::views(items@);
    let mut keys: Vec<Vec<u64>> = Vec::new();
    let mut i: usize = 0;
    while i < items.len()
        invariant
            s == sorted_map::views(items@),
            items_ok(packages@, s),
            i <= items@.len(),
            keys@.len() == i,
            forall|x: int| 0 <= x < i ==> (#[trigger] keys@[x])@ == item_key(packages@, s[x]),
        decreases items@.len() - i,
    {
        assert(s[i as int] == items@[i as int]@);
        assert(item_ok(packages@, s[i as int]));
        keys.push(key_of_item(packages, &items[i]));
        i = i + 1;
    }
    assert(order::key_views(keys@) =~= item_keys(packages@, s));
    let order = sort_positions(keys);
    let mut r: Vec<SuggestItem> = Vec::new();
    let mut k: usize = 0;
    while k < order.len()
        invariant
            s == sorted_map::views(items@),
            order::is_stable_order(item_keys(packages@, s), order@),
            k <= order@.len(),
            r@.len() == k,
            forall|x: int| 0 <= x < k ==> (#[trigger] r@[x])@ == s[order@[x] as int],
        decreases order@.len() - k,
    {
        let p: usize = order[k];
        assert(p < items@.len());
        r.push(items[p].clone());
        k = k + 1;
    }
    assert(sorted_map::views(r@) =~= pick_items(s, order@));
    r
}

pub proof fn lemma_audit_position(
    packages: Seq<Package>,
    s: Seq<SuggestItemView>,
    item: SuggestItemView,
)
    ensures
        ({
            let k = audit_position(packages, s, item);
            &&& 0 <= k <= s.len()
            &&& k < s.len() ==> same_audit(packages, s[k], item)
            &&& forall|x: int| 0 <= x < k ==> !same_audit(packages, #[trigger] s[x], item)
        }),
    decreases s.len(),
{
    if s.len() > 0 {
        let t = s.drop_last();
        lemma_audit_position(packages, t, item);
        let k = audit_position(packages, s, item);
        assert forall|x: int| 0 <= x < k implies !same_audit(packages, #[trigger] s[x], item) by {
            if x < t.len() {
                assert(t[x] == s[x]);
            }
        }
    }
}

/// Merged suggestions differ, and stand for all that were merged.
pub proof fn lemma_merged(packages: Seq<Package>, s: Seq<SuggestItemView>)
    ensures
        audits_differ(packages, merged(packages, s)),
        forall|i: int|
            0 <= i < s.len() ==> is_covered(packages, merged(packages, s), #[trigger] s[i]),
    decreases s.len(),
{
    if s.len() > 0 {
        let t = s.drop_last();
        let item = s.last();
        let rest = merged(packages, t);
        let r = merged(packages, s);
        let k = audit_position(packages, rest, item);
        lemma_merged(packages, t);
        lemma_audit_position(packages, rest, item);
        assert forall|i: int, j: int| 0 <= i < j < r.len() implies !same_audit(
            packages,
            #[trigger] r[i],
            #[trigger] r[j],
        ) by {
            assert(!same_audit(packages, rest[i], item) || k < rest.len());
            if j < rest.len() {
                assert(!same_audit(packages, rest[i], rest[j]));
            }
        }
        if k < rest.len() {
            let more = rest[k].notable_parents + item.notable_parents;
            assert(r[k] == with_parents(rest[k], item.notable_parents));
            assert forall|x: Seq<char>| rest[k].notable_parents.contains(x)
                || item.notable_parents.contains(x) implies #[trigger] more.contains(x) by {
                if rest[k].notable_parents.contains(x) {
                    let y = choose|y: int|
                        0 <= y < rest[k].notable_parents.len() && rest[k].notable_parents[y] == x;
                    assert(more[y] == x);
                } else {
                    let y = choose|y: int|
                        0 <= y < item.notable_parents.len() && item.notable_parents[y] == x;
                    assert(more[rest[k].notable_parents.len() + y] == x);
                }
            }
            assert(stands_for(packages, r[k], item));
        } else {
            assert(stands_for(packages, r[rest.len() as int], item));
        }
        assert forall|i: int| 0 <= i < s.len() implies is_covered(packages, r, #[trigger] s[i]) by {
            if i < t.len() {
                assert(t[i] == s[i]);
                assert(is_covered(packages, rest, t[i]));
                let x = choose|x: int|
                    0 <= x < rest.len() && stands_for(packages, #[trigger] rest[x], t[i]);
                assert(stands_for(packages, r[x], s[i]));
            }
        }
    }
}

/// Tidied suggestions differ and stand for what they stood for before.
proof fn lemma_tidied_covers(
    packages: Seq<Package>,
    r: Seq<SuggestItemView>,
    s: Seq<SuggestItemView>,
)
    requires
        are_tidied(r, s),
        audits_differ(packages, s),
    ensures
        audits_differ(packages, r),
        forall|item: SuggestItemView|
            is_covered(packages, s, item) ==> #[trigger] is_covered(packages, r, item),
{
    assert forall|i: int, j: int| 0 <= i < j < r.len() implies !same_audit(
        packages,
        #[trigger] r[i],
        #[trigger] r[j],
    ) by {
        assert(is_tidied(r[i], s[i]));
        assert(is_tidied(r[j], s[j]));
        assert(!same_audit(packages, s[i], s[j]));
    }
    assert forall|item: SuggestItemView| is_covered(packages, s, item) implies #[trigger] is_covered(
        packages,
        r,
        item,
    ) by {
        let k = choose|k: int| 0 <= k < s.len() && stands_for(packages, #[trigger] s[k], item);
        assert(is_tidied(r[k], s[k]));
        assert(stands_for(packages, r[k], item));
    }
}

/// Adds the parents of a suggestion to those of another.
fn add_parents(kept: &SuggestItem, item: &SuggestItem) -> (r: SuggestItem)
    ensures
        r@ == with_parents(kept@, item@.notable_parents),
{
    let mut r = kept.clone();
    let ghost p0 = text::texts(r.notable_parents@);
    let ghost p1 = text::texts(item.notable_parents@);
    let mut j: usize = 0;
    assert(text::texts(r.notable_parents@) =~= p0 + p1.take(0));
    while j < item.notable_parents.len()
        invariant
            p0 == kept@.notable_parents,
            p1 == text::texts(item.notable_parents@),
            j <= item.notable_parents@.len(),
            text::texts(r.notable_parents@) == p0 + p1.take(j as int),
            r@ == (SuggestItemView {
                notable_parents: text::texts(r.notable_parents@),
                ..kept@
            }),
        decreases item.notable_parents@.len() - j,
    {
        let ghost q = r.notable_parents@;
        r.notable_parents.push(item.notable_parents[j].clone());
        proof {
            assert(text::texts(r.notable_parents@) =~= text::texts(q).push(p1[j as int]));
            assert(p0 + p1.take(j + 1) =~= (p0 + p1.take(j as int)).push(p1[j as int]));
        }
        j = j + 1;
    }
    assert(p1.take(j as int) =~= p1);
    r
}

/// Where a suggestion for the same audit stands in a list.
fn find_audit(packages: &Vec<Package>, list: &Vec<SuggestItem>, item: &SuggestItem) -> (r: usize)
    requires
        items_ok(packages@, sorted_map::views(list@)),
        item_ok(packages@, item@),
    ensures
        r == audit_position(packages@, sorted_map::views(list@), item@),
{
    let ghost s = sorted_map::views(list@);
    let mut k: usize = 0;
    proof {
        lemma_audit_position(packages@, s, item@);
    }
    while k < list.len()
        invariant
            s == sorted_map::views(list@),
            items_ok(packages@, s),
            item_ok(packages@, item@),
            k <= list@.len(),
            k <= audit_position(packages@, s, item@) <= s.len(),
            audit_position(packages@, s, item@) < s.len() ==> same_audit(
                packages@,
                s[audit_position(packages@, s, item@)],
                item@,
            ),
            forall|x: int|
                0 <= x < audit_position(packages@, s, item@) ==> !same_audit(
                    packages@,
                    #[trigger] s[x],
                    item@,
                ),
        decreases list@.len() - k,
    {
        let other = &list[k];
        assert(s[k as int] == other@);
        assert(item_ok(packages@, s[k as int]));
        if text_eq(packages[item.package].name.as_str(), packages[other.package].name.as_str())
            && recommendation_eq(&item.suggested_diff, &other.suggested_diff) {
            assert(same_audit(packages@, s[k as int], item@));
            return k;
        }
        k = k + 1;
    }
    k
}

/// Merges suggestions that are for the same audit.
fn merge_items(packages: &Vec<Package>, items: &Vec<SuggestItem>) -> (r: Vec<SuggestItem>)
    requires
        items_ok(packages@, sorted_map::views(items@)),
    ensures
        sorted_map::views(r@) == merged(packages@, sorted_map::views(items@)),
        items_ok(packages@, sorted_map::views(r@)),
{
    let ghost s = sorted_map::views(items@);
    let mut r: Vec<SuggestItem> = Vec::new();
    let mut i: usize = 0;
    assert(sorted_map::views(r@) =~= merged(packages@, s.take(0)));
    while i < items.len()
        invariant
            s == sorted_map::views(items@),
            items_ok(packages@, s),
            i <= items@.len(),
            sorted_map::views(r@) == merged(packages@, s.take(i as int)),
            items_ok(packages@, sorted_map::views(r@)),
        decreases items@.len() - i,
    {
        let ghost before = sorted_map::views(r@);
        let item = &items[i];
        proof {
            assert(s.take(i + 1).drop_last() =~= s.take(i as int));
            assert(s.take(i + 1).last() == item@);
            assert(item_ok(packages@, s[i as int]));
        }
        let k: usize = find_audit(packages, &r, item);
        if k < r.len() {
            let kept = add_parents(&r[k], item);
            assert(before[k as int] == r@[k as int]@);
            r.set(k, kept);
            assert(sorted_map::views(r@) =~= before.update(k as int, kept@));
        } else {
            proof {
                lemma_audit_position(packages@, before, item@);
            }
            r.push(item.clone());
            assert(sorted_map::views(r@) =~= before.push(item@));
        }
        proof {
            assert forall|x: int| 0 <= x < sorted_map::views(r@).len() implies item_ok(
                packages@,
                #[trigger] sorted_map::views(r@)[x],
            ) by {
                if x < before.len() {
                    assert(item_ok(packages@, before[x]));
                }
            }
        }
        i = i + 1;
    }
    assert(s.take(i as int) =~= s);
    r
}

proof fn lemma_total_prefix(s: Seq<SuggestItemView>, i: int)
    requires
        0 <= i <= s.len(),
    ensures
        0 <= total(s.take(i)) <= total(s),
    decreases s.len(),
{
    if s.len() > 0 {
        if i == s.len() {
            assert(s.take(i) =~= s);
            lemma_total_prefix(s.drop_last(), i - 1);
            assert(s.drop_last().take(i - 1) =~= s.drop_last());
        } else {
            assert(s.drop_last().take(i) =~= s.take(i));
            lemma_total_prefix(s.drop_last(), i);
        }
    } else {
        assert(s.take(i) =~= s);
    }
}

/// Puts the parents of the items in order.
fn tidy_items(items: Vec<SuggestItem>) -> (r: Vec<SuggestItem>)
    ensures
        are_tidied(sorted_map::views(r@), sorted_map::views(items@)),
{
    let ghost s = sorted_map::views(items@);
    let mut r: Vec<SuggestItem> = Vec::new();
    let mut i: usize = 0;
    while i < items.len()
        invariant
            s == sorted_map::views(items@),
            i <= items@.len(),
            r@.len() == i,
            forall|x: int| 0 <= x < i ==> is_tidied((#[trigger] r@[x])@, s[x]),
        decreases items@.len() - i,
    {
        let mut item = items[i].clone();
        item.notable_parents = name_set(&items[i].notable_parents);
        assert(s[i as int] == items@[i as int]@);
        r.push(item);
        i = i + 1;
    }
    assert forall|x: int| 0 <= x < s.len() implies is_tidied(
        #[trigger] sorted_map::views(r@)[x],
        s[x],
    ) by {
        assert(sorted_map::views(r@)[x] == r@[x]@);
    }
    r
}

proof fn lemma_total_tidied(r: Seq<SuggestItemView>, s: Seq<SuggestItemView>)
    requires
        are_tidied(r, s),
    ensures
        total(r) == total(s),
    decreases s.len(),
{
    if s.len() > 0 {
        assert(is_tidied(r[s.len() - 1], s[s.len() - 1]));
        assert(are_tidied(r.drop_last(), s.drop_last())) by {
            assert forall|i: int| 0 <= i < s.drop_last().len() implies is_tidied(
                #[trigger] r.drop_last()[i],
                s.drop_last()[i],
            ) by {
                assert(is_tidied(r[i], s[i]));
            }
        }
        lemma_total_tidied(r.drop_last(), s.drop_last());
    }
}

/// Adds up the lines of suggested audits.
fn count_lines(items: &Vec<SuggestItem>) -> (r: u64)
    requires
        total(sorted_map::views(items@)) <= u64::MAX,
        forall|i: int| 0 <= i < items@.len() ==> (#[trigger] items@[i]).suggested_diff.diffstat.wf(),
    ensures
        r == total(sorted_map::views(items@)),
{
    let ghost s = sorted_map::views(items@);
    let mut sum: u64 = 0;
    let mut i: usize = 0;
    while i < items.len()
        invariant
            s == sorted_map::views(items@),
            total(s) <= u64::MAX,
            forall|i: int|
                0 <= i < items@.len() ==> (#[trigger] items@[i]).suggested_diff.diffstat.wf(),
            i <= items@.len(),
            sum == total(s.take(i as int)),
        decreases items@.len() - i,
    {
        proof {
            lemma_total_prefix(s, i + 1);
            assert(s.take(i + 1).drop_last() =~= s.take(i as int));
            assert(s.take(i + 1).last() == items@[i as int]@);
        }
        sum = sum + items[i].suggested_diff.diffstat.count();
        i = i + 1;
    }
    assert(s.take(i as int) =~= s);
    sum
}

/// The items that are for the criteria that a text gives.
fn items_for_criteria(m: &CriteriaMapper, items: &Vec<SuggestItem>, t: &str) -> (r: Vec<
    SuggestItem,
>)
    requires
        m.wf(),
    ensures
        sorted_map::views(r@) == for_criteria(*m, sorted_map::views(items@), t@),
{
    let ghost s = sorted_map::views(items@);
    let ghost flags = Seq::new(
        s.len(),
        |j: int| criteria_text(*m, s[j].suggested_criteria) == t@,
    );
    let mut r: Vec<SuggestItem> = Vec::new();
    let mut i: usize = 0;
    assert(sorted_map::views(r@) =~= retain::kept(s.take(0), flags));
    while i < items.len()
        invariant
            m.wf(),
            s == sorted_map::views(items@),
            flags == Seq::new(
                s.len(),
                |j: int| criteria_text(*m, s[j].suggested_criteria) == t@,
            ),
            i <= items@.len(),
            sorted_map::views(r@) == retain::kept(s.take(i as int), flags),
        decreases items@.len() - i,
    {
        let ghost before = sorted_map::views(r@);
        proof {
            assert(s.take(i + 1).drop_last() =~= s.take(i as int));
            assert(s.take(i + 1).last() == items@[i as int]@);
        }
        let own = criteria_to_text(m, &items[i].suggested_criteria);
        if text_eq(own.as_str(), t) {
            r.push(items[i].clone());
            assert(sorted_map::views(r@) =~= before.push(items@[i as int]@));
        }
        i = i + 1;
    }
    proof {
        assert(s.take(i as int) =~= s);
        let tv = t@;
        let mapper = *m;
        assert(flags =~= Seq::new(
            s.len(),
            |j: int| criteria_text(mapper, s[j].suggested_criteria) == tv,
        ));
    }
    r
}

proof fn lemma_kept_some<V>(list: Seq<V>, flags: Seq<bool>, j: int)
    requires
        0 <= j < list.len(),
        flags[j],
    ensures
        retain::kept(list, flags).len() > 0,
    decreases list.len(),
{
    if j < list.len() - 1 {
        lemma_kept_some(list.drop_last(), flags, j);
    }
}

proof fn lemma_kept_none<V>(list: Seq<V>, flags: Seq<bool>)
    requires
        forall|j: int| 0 <= j < list.len() ==> !(#[trigger] flags[j]),
    ensures
        retain::kept(list, flags).len() == 0,
    decreases list.len(),
{
    if list.len() > 0 {
        assert(!flags[list.len() - 1]);
        lemma_kept_none(list.drop_last(), flags);
    }
}

/// Groups suggested audits by their criteria.
fn group_items(m: &CriteriaMapper, items: &Vec<SuggestItem>) -> (r: SortedMap<Vec<SuggestItem>>)
    requires
        m.wf(),
    ensures
        forall|t: Seq<char>|
            sorted_map::views_at(r, t) == for_criteria(*m, sorted_map::views(items@), t) && ((
            #[trigger] r.get_spec(t)) is Some <==> for_criteria(
                *m,
                sorted_map::views(items@),
                t,
            ).len() > 0),
{
    let ghost s = sorted_map::views(items@);
    let mut r: SortedMap<Vec<SuggestItem>> = SortedMap::new();
    let mut i: usize = 0;
    while i < items.len()
        invariant
            m.wf(),
            s == sorted_map::views(items@),
            i <= items@.len(),
            forall|t: Seq<char>|
                #![trigger r.get_spec(t)]
                if exists|x: int|
                    0 <= x < i && criteria_text(*m, (#[trigger] s[x]).suggested_criteria) == t {
                    r.get_spec(t) is Some && sorted_map::views(r.get_spec(t)->0@) == for_criteria(
                        *m,
                        s,
                        t,
                    )
                } else {
                    r.get_spec(t) is None
                },
        decreases items@.len() - i,
    {
        let own = criteria_to_text(m, &items[i].suggested_criteria);
        let ghost before = r;
        assert(s[i as int] == items@[i as int]@);
        let ghost key = own@;
        if !r.contains_key(own.as_str()) {
            let list = items_for_criteria(m, items, own.as_str());
            r.insert(own, list);
        }
        proof {
            assert forall|t: Seq<char>|
                #![trigger r.get_spec(t)]
                if exists|x: int|
                    0 <= x < i + 1 && criteria_text(*m, (#[trigger] s[x]).suggested_criteria) == t {
                    r.get_spec(t) is Some && sorted_map::views(r.get_spec(t)->0@) == for_criteria(
                        *m,
                        s,
                        t,
                    )
                } else {
                    r.get_spec(t) is None
                } by {
                if t == key {
                    assert(criteria_text(*m, s[i as int].suggested_criteria) == t);
                } else {
                    assert(r.get_spec(t) == before.get_spec(t));
                    if exists|x: int|
                        0 <= x < i + 1 && criteria_text(*m, (#[trigger] s[x]).suggested_criteria)
                            == t {
                        let x = choose|x: int|
                            0 <= x < i + 1 && criteria_text(
                                *m,
                                (#[trigger] s[x]).suggested_criteria,
                            ) == t;
                        assert(x < i);
                        assert(criteria_text(*m, s[x].suggested_criteria) == t);
                    }
                }
            }
        }
        i = i + 1;
    }
    proof {
        assert forall|t: Seq<char>|
            sorted_map::views_at(r, t) == for_criteria(*m, s, t) && ((#[trigger] r.get_spec(
                t,
            )) is Some <==> for_criteria(*m, s, t).len() > 0) by {
            let mapper = *m;
            let flags = Seq::new(
                s.len(),
                |j: int| criteria_text(mapper, s[j].suggested_criteria) == t,
            );
            assert(for_criteria(mapper, s, t) == retain::kept(s, flags));
            if exists|x: int|
                0 <= x < s.len() && criteria_text(*m, (#[trigger] s[x]).suggested_criteria) == t {
                let x = choose|x: int|
                    0 <= x < s.len() && criteria_text(*m, (#[trigger] s[x]).suggested_criteria)
                        == t;
                lemma_kept_some(s, flags, x);
            } else {
                lemma_kept_none(s, flags);
                assert(sorted_map::views_at(r, t) =~= for_criteria(*m, s, t));
            }
        }
    }
    r
}

/// Puts suggested audits in order, merges doubles, and groups them by criteria.
pub fn finish_suggest(
    packages: &Vec<Package>,
    criteria_mapper: &CriteriaMapper,
    items: &Vec<SuggestItem>,
    warnings: Vec<String>,
) -> (r: Suggest)
    requires
        criteria_mapper.wf(),
        items_ok(packages@, sorted_map::views(items@)),
        forall|order: Seq<usize>| #[trigger]
            order::is_stable_order(item_keys(packages@, sorted_map::views(items@)), order) ==> total(
                merged(packages@, pick_items(sorted_map::views(items@), order)),
            ) <= u64::MAX,
    ensures
        is_suggest(packages@, *criteria_mapper, sorted_map::views(items@), r),
        r.warnings == warnings,
{
    let ghost s = sorted_map::views(items@);
    let sorted = sort_items(packages, items);
    let ghost order = choose|order: Seq<usize>| #[trigger]
        order::is_stable_order(item_keys(packages@, s), order) && sorted_map::views(sorted@)
            == pick_items(s, order);
    proof {
        let v = sorted_map::views(sorted@);
        assert forall|i: int| 0 <= i < v.len() implies item_ok(packages@, #[trigger] v[i]) by {
            assert(v[i] == s[order[i] as int]);
            assert(order[i] < s.len());
        }
    }
    let merged_items = merge_items(packages, &sorted);
    let ghost all = sorted_map::views(merged_items@);
    let suggestions = tidy_items(merged_items);
    proof {
        let v = sorted_map::views(suggestions@);
        lemma_total_tidied(v, all);
        let t = pick_items(s, order);
        lemma_merged(packages@, t);
        lemma_tidied_covers(packages@, v, all);
        assert forall|i: int| 0 <= i < s.len() implies is_covered(packages@, v, #[trigger] s[i]) by {
            let y = order::lemma_order_has(item_keys(packages@, s), order, i);
            assert(t[y] == s[i]);
            assert(is_covered(packages@, all, t[y]));
        }
        assert forall|i: int| 0 <= i < suggestions@.len() implies (
        #[trigger] suggestions@[i]).suggested_diff.diffstat.wf() by {
            assert(v[i] == suggestions@[i]@);
            assert(is_tidied(v[i], all[i]));
            assert(item_ok(packages@, all[i]));
        }
    }
    let total_lines: u64 = count_lines(&suggestions);
    let suggestions_by_criteria = group_items(criteria_mapper, &suggestions);
    Suggest { suggestions, suggestions_by_criteria, total_lines, warnings }
}

} // verus!
