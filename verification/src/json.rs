//! Reports for programs.

use vstd::prelude::*;
use crate::audit_graph::{ViolationConflict, ViolationConflictView};
use crate::criteria;
use crate::criteria::CriteriaMapper;
use crate::delta::{DiffRecommendation, DiffRecommendationView};
use crate::packages::Package;
use crate::print;
use crate::print::{package_to_text, short_list_to_text};
use crate::resolve;
use crate::resolve::{AuditFailure, Conclusion, ResolveReport};
use crate::sorted_map;
use crate::sorted_map::SortedMap;
use crate::suggest::{Suggest, SuggestItem, SuggestItemView};
use crate::text;
use crate::version::{VetVersion, VetVersionView};

verus! {

/// A package.
#[derive(Debug, PartialEq, Eq)]
pub struct JsonPackage {
    pub name: String,
    pub version: VetVersion,
}

/// The contents of a [`JsonPackage`].
#[verifier::ext_equal]
pub struct JsonPackageView {
    pub name: Seq<char>,
    pub version: VetVersionView,
}

impl View for JsonPackage {
    type V = JsonPackageView;

    open spec fn view(&self) -> JsonPackageView {
        JsonPackageView { name: self.name@, version: self.version@ }
    }
}

/// A package that fails, and the criteria that it lacks.
#[derive(Debug, PartialEq, Eq)]
pub struct JsonVetFailure {
    pub name: String,
    pub version: VetVersion,
    pub missing_criteria: Vec<String>,
}

/// The contents of a [`JsonVetFailure`].
#[verifier::ext_equal]
pub struct JsonVetFailureView {
    pub name: Seq<char>,
    pub version: VetVersionView,
    pub missing_criteria: Seq<Seq<char>>,
}

impl View for JsonVetFailure {
    type V = JsonVetFailureView;

    open spec fn view(&self) -> JsonVetFailureView {
        JsonVetFailureView {
            name: self.name@,
            version: self.version@,
            missing_criteria: text::texts(self.missing_criteria@),
        }
    }
}

/// A suggested audit.
#[derive(Debug, PartialEq, Eq)]
pub struct JsonSuggestItem {
    pub name: String,
    pub notable_parents: String,
    pub suggested_criteria: Vec<String>,
    pub suggested_diff: DiffRecommendation,
}

/// The contents of a [`JsonSuggestItem`].
#[verifier::ext_equal]
pub struct JsonSuggestItemView {
    pub name: Seq<char>,
    pub notable_parents: Seq<char>,
    pub suggested_criteria: Seq<Seq<char>>,
    pub suggested_diff: DiffRecommendationView,
}

impl View for JsonSuggestItem {
    type V = JsonSuggestItemView;

    open spec fn view(&self) -> JsonSuggestItemView {
        JsonSuggestItemView {
            name: self.name@,
            notable_parents: self.notable_parents@,
            suggested_criteria: text::texts(self.suggested_criteria@),
            suggested_diff: self.suggested_diff@,
        }
    }
}

/// All packages are vetted.
#[derive(Debug, PartialEq, Eq)]
pub struct JsonReportSuccess {
    pub vetted_fully: Vec<JsonPackage>,
    pub vetted_partially: Vec<JsonPackage>,
    pub vetted_with_exemptions: Vec<JsonPackage>,
}

/// Some entries are at odds with violations.
#[derive(Debug, PartialEq, Eq)]
pub struct JsonReportFailForViolationConflict {
    /// The conflicts, by package and version.
    pub violations: SortedMap<Vec<ViolationConflict>>,
}

/// Some packages fail.
#[derive(Debug, PartialEq, Eq)]
pub struct JsonReportFailForVet {
    pub failures: Vec<JsonVetFailure>,
    pub suggest: Option<JsonSuggest>,
}

/// What to audit.
#[derive(Debug, PartialEq, Eq)]
pub struct JsonSuggest {
    pub suggestions: Vec<JsonSuggestItem>,
    pub suggest_by_criteria: SortedMap<Vec<JsonSuggestItem>>,
    pub total_lines: u64,
}

/// The conclusion of a report.
#[derive(Debug, PartialEq, Eq)]
pub enum JsonReportConclusion {
    Success(JsonReportSuccess),
    FailForViolationConflict(JsonReportFailForViolationConflict),
    FailForVet(JsonReportFailForVet),
}

/// A report.
#[derive(Debug, PartialEq, Eq)]
pub struct JsonReport {
    pub conclusion: JsonReportConclusion,
}

/// A package of a report.
pub open spec fn json_package(package: Package) -> JsonPackageView {
    JsonPackageView { name: package.name@, version: package.version@ }
}

/// Some packages of a report.
pub open spec fn json_packages(packages: Seq<Package>, listing: Seq<usize>) -> Seq<JsonPackageView> {
    listing.map_values(|p: usize| json_package(packages[p as int]))
}

/// A failure of a report.
pub open spec fn json_failure(
    packages: Seq<Package>,
    m: CriteriaMapper,
    f: (usize, AuditFailure),
) -> JsonVetFailureView {
    JsonVetFailureView {
        name: packages[f.0 as int].name@,
        version: packages[f.0 as int].version@,
        missing_criteria: criteria::names_of(m, f.1.criteria_failures),
    }
}

/// The failures of a report.
pub open spec fn json_failures(
    packages: Seq<Package>,
    m: CriteriaMapper,
    s: Seq<(usize, AuditFailure)>,
) -> Seq<JsonVetFailureView> {
    s.map_values(|f: (usize, AuditFailure)| json_failure(packages, m, f))
}

/// A suggested audit of a report.
pub open spec fn json_item(
    packages: Seq<Package>,
    m: CriteriaMapper,
    item: SuggestItemView,
) -> JsonSuggestItemView {
    JsonSuggestItemView {
        name: packages[item.package as int].name@,
        notable_parents: print::short_list(item.notable_parents),
        suggested_criteria: criteria::names_of(m, item.suggested_criteria),
        suggested_diff: item.suggested_diff,
    }
}

/// The suggested audits of a report.
pub open spec fn json_items(
    packages: Seq<Package>,
    m: CriteriaMapper,
    s: Seq<SuggestItemView>,
) -> Seq<JsonSuggestItemView> {
    s.map_values(|x: SuggestItemView| json_item(packages, m, x))
}

/// The conflicts of the last package with a given text.
pub open spec fn conflicts_for(
    packages: Seq<Package>,
    s: Seq<(usize, Vec<ViolationConflict>)>,
    key: Seq<char>,
) -> Option<Seq<ViolationConflictView>>
    decreases s.len(),
{
    if s.len() == 0 {
        None
    } else if print::package_text(packages[s.last().0 as int]) == key {
        Some(sorted_map::views(s.last().1@))
    } else {
        conflicts_for(packages, s.drop_last(), key)
    }
}

/// Whether all suggested audits are for known packages.
pub open spec fn items_known(packages: Seq<Package>, s: Seq<SuggestItemView>) -> bool {
    forall|i: int| 0 <= i < s.len() ==> (#[trigger] s[i]).package < packages.len()
}

/// Whether all suggestions are for known packages.
pub open spec fn suggest_known(packages: Seq<Package>, s: Suggest) -> bool {
    &&& items_known(packages, sorted_map::views(s.suggestions@))
    &&& forall|k: int|
        0 <= k < s.suggestions_by_criteria.entries().len() ==> items_known(
            packages,
            sorted_map::views((#[trigger] s.suggestions_by_criteria.entries()[k]).1@),
        )
}

/// Whether suggestions of a report are right.
pub open spec fn is_json_suggest(
    packages: Seq<Package>,
    m: CriteriaMapper,
    s: Suggest,
    r: JsonSuggest,
) -> bool {
    &&& sorted_map::views(r.suggestions@) == json_items(
        packages,
        m,
        sorted_map::views(s.suggestions@),
    )
    &&& r.suggest_by_criteria.keys() == s.suggestions_by_criteria.keys()
    &&& forall|k: int|
        0 <= k < s.suggestions_by_criteria.entries().len() ==> sorted_map::views(
            (#[trigger] r.suggest_by_criteria.entries()[k]).1@,
        ) == json_items(
            packages,
            m,
            sorted_map::views(s.suggestions_by_criteria.entries()[k].1@),
        )
    &&& r.total_lines == s.total_lines
}

impl ResolveReport {
    /// Whether a report is right.
    pub open spec fn is_json(&self, suggest: Option<&Suggest>, r: JsonReport) -> bool {
        match (self.conclusion, r.conclusion) {
            (Conclusion::Success(s), JsonReportConclusion::Success(j)) => {
                &&& sorted_map::views(j.vetted_fully@) == json_packages(
                    self.packages@,
                    s.vetted_fully@,
                )
                &&& sorted_map::views(j.vetted_partially@) == json_packages(
                    self.packages@,
                    s.vetted_partially@,
                )
                &&& sorted_map::views(j.vetted_with_exemptions@) == json_packages(
                    self.packages@,
                    s.vetted_with_exemptions@,
                )
            },
            (
                Conclusion::FailForViolationConflict(f),
                JsonReportConclusion::FailForViolationConflict(j),
            ) => forall|key: Seq<char>|
                (match (#[trigger] j.violations.get_spec(key)) {
                    Some(list) => Some(sorted_map::views(list@)),
                    None => None,
                }) == conflicts_for(self.packages@, f.violations@, key),
            (Conclusion::FailForVet(f), JsonReportConclusion::FailForVet(j)) => {
                &&& sorted_map::views(j.failures@) == json_failures(
                    self.packages@,
                    self.criteria_mapper,
                    f.failures@,
                )
                &&& match (suggest, j.suggest) {
                    (Some(s), Some(t)) => is_json_suggest(
                        self.packages@,
                        self.criteria_mapper,
                        *s,
                        t,
                    ),
                    (None, None) => true,
                    _ => false,
                }
            },
            _ => false,
        }
    }
}

fn list_packages(packages: &Vec<Package>, listing: &Vec<usize>) -> (r: Vec<JsonPackage>)
    requires
        resolve::in_range(listing@, packages@),
    ensures
        sorted_map::views(r@) == json_packages(packages@, listing@),
{
    let mut r: Vec<JsonPackage> = Vec::new();
    let mut i: usize = 0;
    while i < listing.len()
        invariant
            resolve::in_range(listing@, packages@),
            i <= listing@.len(),
            r@.len() == i,
            forall|x: int|
                0 <= x < i ==> (#[trigger] r@[x])@ == json_package(packages@[listing@[x] as int]),
        decreases listing@.len() - i,
    {
        let p: usize = listing[i];
        r.push(
            JsonPackage { name: packages[p].name.clone(), version: packages[p].version.clone() },
        );
        i = i + 1;
    }
    assert(sorted_map::views(r@) =~= json_packages(packages@, listing@));
    r
}

fn list_items(packages: &Vec<Package>, m: &CriteriaMapper, items: &Vec<SuggestItem>) -> (r: Vec<
    JsonSuggestItem,
>)
    requires
        m.wf(),
        items_known(packages@, sorted_map::views(items@)),
    ensures
        sorted_map::views(r@) == json_items(packages@, *m, sorted_map::views(items@)),
{
    let ghost s = sorted_map::views(items@);
    let mut r: Vec<JsonSuggestItem> = Vec::new();
    let mut i: usize = 0;
    while i < items.len()
        invariant
            m.wf(),
            s == sorted_map::views(items@),
            items_known(packages@, s),
            i <= items@.len(),
            r@.len() == i,
            forall|x: int| 0 <= x < i ==> (#[trigger] r@[x])@ == json_item(packages@, *m, s[x]),
        decreases items@.len() - i,
    {
        let item = &items[i];
        assert(s[i as int] == item@);
        let next = JsonSuggestItem {
            name: packages[item.package].name.clone(),
            notable_parents: short_list_to_text(&item.notable_parents),
            suggested_criteria: m.criteria_names(&item.suggested_criteria),
            suggested_diff: item.suggested_diff.clone(),
        };
        r.push(next);
        i = i + 1;
    }
    assert(sorted_map::views(r@) =~= json_items(packages@, *m, s));
    r
}

fn list_suggest(packages: &Vec<Package>, m: &CriteriaMapper, s: &Suggest) -> (r: JsonSuggest)
    requires
        m.wf(),
        suggest_known(packages@, *s),
    ensures
        is_json_suggest(packages@, *m, *s, r),
{
    let map = &s.suggestions_by_criteria;
    let mut groups: Vec<Vec<JsonSuggestItem>> = Vec::new();
    let mut k: usize = 0;
    while k < map.len()
        invariant
            m.wf(),
            *map == s.suggestions_by_criteria,
            suggest_known(packages@, *s),
            k <= map.entries().len(),
            groups@.len() == k,
            forall|x: int|
                0 <= x < k ==> sorted_map::views((#[trigger] groups@[x])@) == json_items(
                    packages@,
                    *m,
                    sorted_map::views(map.entries()[x].1@),
                ),
        decreases map.entries().len() - k,
    {
        assert(items_known(
            packages@,
            sorted_map::views(s.suggestions_by_criteria.entries()[k as int].1@),
        ));
        groups.push(list_items(packages, m, map.value_at(k)));
        k = k + 1;
    }
    let ghost all = groups@;
    let suggest_by_criteria = map.with_values(groups);
    proof {
        assert forall|k: int| 0 <= k < map.entries().len() implies sorted_map::views(
            (#[trigger] suggest_by_criteria.entries()[k]).1@,
        ) == json_items(packages@, *m, sorted_map::views(map.entries()[k].1@)) by {
            assert(suggest_by_criteria.entries()[k].1 == all[k]);
        }
    }
    JsonSuggest {
        suggestions: list_items(packages, m, &s.suggestions),
        suggest_by_criteria,
        total_lines: s.total_lines,
    }
}

fn list_failures(packages: &Vec<Package>, m: &CriteriaMapper, failures: &Vec<(usize, AuditFailure)>) -> (r:
    Vec<JsonVetFailure>)
    requires
        m.wf(),
        resolve::in_range(resolve::positions(failures@), packages@),
    ensures
        sorted_map::views(r@) == json_failures(packages@, *m, failures@),
{
    let mut r: Vec<JsonVetFailure> = Vec::new();
    let mut i: usize = 0;
    while i < failures.len()
        invariant
            m.wf(),
            resolve::in_range(resolve::positions(failures@), packages@),
            i <= failures@.len(),
            r@.len() == i,
            forall|x: int|
                0 <= x < i ==> (#[trigger] r@[x])@ == json_failure(packages@, *m, failures@[x]),
        decreases failures@.len() - i,
    {
        let p: usize = failures[i].0;
        assert(resolve::positions(failures@)[i as int] == p);
        let next = JsonVetFailure {
            name: packages[p].name.clone(),
            version: packages[p].version.clone(),
            missing_criteria: m.criteria_names(&failures[i].1.criteria_failures),
        };
        r.push(next);
        i = i + 1;
    }
    assert(sorted_map::views(r@) =~= json_failures(packages@, *m, failures@));
    r
}

fn clone_conflicts(list: &Vec<ViolationConflict>) -> (r: Vec<ViolationConflict>)
    ensures
        sorted_map::views(r@) == sorted_map::views(list@),
{
    let mut r: Vec<ViolationConflict> = Vec::new();
    let mut i: usize = 0;
    while i < list.len()
        invariant
            i <= list@.len(),
            r@.len() == i,
            forall|x: int| 0 <= x < i ==> (#[trigger] r@[x])@ == list@[x]@,
        decreases list@.len() - i,
    {
        r.push(list[i].clone());
        i = i + 1;
    }
    assert(sorted_map::views(r@) =~= sorted_map::views(list@));
    r
}

fn list_violations(
    packages: &Vec<Package>,
    violations: &Vec<(usize, Vec<ViolationConflict>)>,
) -> (r: SortedMap<Vec<ViolationConflict>>)
    requires
        resolve::in_range(resolve::positions(violations@), packages@),
    ensures
        forall|key: Seq<char>|
            (match (#[trigger] r.get_spec(key)) {
                Some(list) => Some(sorted_map::views(list@)),
                None => None,
            }) == conflicts_for(packages@, violations@, key),
{
    let ghost v = violations@;
    let mut r: SortedMap<Vec<ViolationConflict>> = SortedMap::new();
    let mut i: usize = 0;
    while i < violations.len()
        invariant
            resolve::in_range(resolve::positions(violations@), packages@),
            v == violations@,
            i <= v.len(),
            forall|key: Seq<char>|
                (match (#[trigger] r.get_spec(key)) {
                    Some(list) => Some(sorted_map::views(list@)),
                    None => None,
                }) == conflicts_for(packages@, v.take(i as int), key),
        decreases v.len() - i,
    {
        let p: usize = violations[i].0;
        assert(resolve::positions(violations@)[i as int] == p);
        let ghost before = r;
        let key = package_to_text(&packages[p]);
        let list = clone_conflicts(&violations[i].1);
        r.insert(key, list);
        proof {
            assert(v.take(i + 1).drop_last() =~= v.take(i as int));
            assert(v.take(i + 1).last() == v[i as int]);
            assert forall|k: Seq<char>|
                (match (#[trigger] r.get_spec(k)) {
                    Some(list) => Some(sorted_map::views(list@)),
                    None => None,
                }) == conflicts_for(packages@, v.take(i + 1), k) by {
                if k != key@ {
                    assert(r.get_spec(k) == before.get_spec(k));
                }
            }
        }
        i = i + 1;
    }
    assert(v.take(i as int) =~= v);
    r
}

impl ResolveReport {
    /// The report, for programs.
    pub fn print_json(&self, suggest: Option<&Suggest>) -> (r: JsonReport)
        requires
            self.wf(),
            suggest is Some ==> suggest_known(self.packages@, *suggest->0),
        ensures
            self.is_json(suggest, r),
    {
        let conclusion = match &self.conclusion {
            Conclusion::Success(s) => JsonReportConclusion::Success(
                JsonReportSuccess {
                    vetted_fully: list_packages(&self.packages, &s.vetted_fully),
                    vetted_partially: list_packages(&self.packages, &s.vetted_partially),
                    vetted_with_exemptions: list_packages(
                        &self.packages,
                        &s.vetted_with_exemptions,
                    ),
                },
            ),
            Conclusion::FailForViolationConflict(
                f,
            ) => JsonReportConclusion::FailForViolationConflict(
                JsonReportFailForViolationConflict {
                    violations: list_violations(&self.packages, &f.violations),
                },
            ),
            Conclusion::FailForVet(f) => JsonReportConclusion::FailForVet(
                JsonReportFailForVet {
                    failures: list_failures(&self.packages, &self.criteria_mapper, &f.failures),
                    suggest: match suggest {
                        Some(s) => Some(list_suggest(&self.packages, &self.criteria_mapper, s)),
                        None => None,
                    },
                },
            ),
        };
        JsonReport { conclusion }
    }
}

} // verus!
