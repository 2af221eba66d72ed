//! What reports for programs say.

use vstd::prelude::*;
use crate::audit_graph::ViolationConflict;
use crate::criteria;
use crate::json;
use crate::json::{JsonPackage, JsonReport, JsonReportConclusion, JsonSuggestItem};
use crate::packages::Package;
use crate::print;
use crate::print::{package_to_text, short_list_to_text};
use crate::resolve::{Conclusion, ResolveReport};
use crate::sorted_map;
use crate::suggest::{Suggest, SuggestItem};
use crate::text;

verus! {

/// A report comes to the conclusion of the analysis.
pub proof fn law_reports_conclude_alike(
    report: ResolveReport,
    suggest: Option<&Suggest>,
    r: JsonReport,
)
    requires
        call_ensures(ResolveReport::print_json, (&report, suggest), r),
    ensures
        report.conclusion is Success <==> r.conclusion is Success,
        report.conclusion is FailForViolationConflict <==> r.conclusion is FailForViolationConflict,
        report.conclusion is FailForVet <==> r.conclusion is FailForVet,
{
}

/// Whether a list names the packages at some positions, one for each, in order.
pub open spec fn names_packages(
    packages: Seq<Package>,
    listing: Seq<usize>,
    r: Seq<JsonPackage>,
) -> bool {
    &&& r.len() == listing.len()
    &&& forall|k: int|
        0 <= k < r.len() ==> (#[trigger] r[k]).name@ == packages[listing[k] as int].name@
            && r[k].version@ == packages[listing[k] as int].version@
}

proof fn lemma_names(packages: Seq<Package>, listing: Seq<usize>, r: Seq<JsonPackage>)
    requires
        sorted_map::views(r) == json::json_packages(packages, listing),
    ensures
        names_packages(packages, listing, r),
{
    let v = sorted_map::views(r);
    assert(v.len() == r.len());
    assert forall|k: int| 0 <= k < r.len() implies (#[trigger] r[k]).name@
        == packages[listing[k] as int].name@ && r[k].version@
        == packages[listing[k] as int].version@ by {
        assert(v[k] == r[k]@);
        assert(v[k] == json::json_package(packages[listing[k] as int]));
    }
}

/// The report of a success names the packages of each of the three lists.
pub proof fn law_reports_name_vetted_packages(
    report: ResolveReport,
    suggest: Option<&Suggest>,
    r: JsonReport,
)
    requires
        call_ensures(ResolveReport::print_json, (&report, suggest), r),
    ensures
        report.conclusion matches Conclusion::Success(s) ==> {
            let j = r.conclusion->Success_0;
            &&& names_packages(report.packages@, s.vetted_fully@, j.vetted_fully@)
            &&& names_packages(report.packages@, s.vetted_partially@, j.vetted_partially@)
            &&& names_packages(
                report.packages@,
                s.vetted_with_exemptions@,
                j.vetted_with_exemptions@,
            )
        },
{
    if let Conclusion::Success(s) = report.conclusion {
        let j = r.conclusion->Success_0;
        lemma_names(report.packages@, s.vetted_fully@, j.vetted_fully@);
        lemma_names(report.packages@, s.vetted_partially@, j.vetted_partially@);
        lemma_names(report.packages@, s.vetted_with_exemptions@, j.vetted_with_exemptions@);
    }
}

/// The report of a failure has one entry for each failure, in order: the package, its
/// version and the names of the criteria that are missing.
pub proof fn law_reports_name_failures(
    report: ResolveReport,
    suggest: Option<&Suggest>,
    r: JsonReport,
    k: int,
)
    requires
        call_ensures(ResolveReport::print_json, (&report, suggest), r),
    ensures
        report.conclusion matches Conclusion::FailForVet(f) ==> {
            let j = r.conclusion->FailForVet_0;
            &&& j.failures@.len() == f.failures@.len()
            &&& 0 <= k < f.failures@.len() ==> {
                let package = report.packages@[f.failures@[k].0 as int];
                &&& j.failures@[k].name@ == package.name@
                &&& j.failures@[k].version@ == package.version@
                &&& text::texts(j.failures@[k].missing_criteria@) == criteria::names_of(
                    report.criteria_mapper,
                    f.failures@[k].1.criteria_failures,
                )
            }
            &&& j.suggest is Some <==> suggest is Some
        },
{
    if let Conclusion::FailForVet(f) = report.conclusion {
        let j = r.conclusion->FailForVet_0;
        let v = sorted_map::views(j.failures@);
        assert(v.len() == j.failures@.len());
        if 0 <= k < f.failures@.len() {
            assert(v[k] == j.failures@[k]@);
            assert(v[k] == json::json_failure(
                report.packages@,
                report.criteria_mapper,
                f.failures@[k],
            ));
        }
    }
}

/// Whether a suggestion of a report says what the suggestion says.
pub open spec fn says_the_same(report: ResolveReport, item: SuggestItem, r: JsonSuggestItem) -> bool {
    &&& r.name@ == report.packages@[item.package as int].name@
    &&& r.suggested_diff@ == item.suggested_diff@
    &&& text::texts(r.suggested_criteria@) == criteria::names_of(
        report.criteria_mapper,
        item.suggested_criteria,
    )
    &&& forall|t: String|
        call_ensures(short_list_to_text, (&item.notable_parents,), t) ==> r.notable_parents@
            == #[trigger] t@
}

/// Whether suggestions of a report say what some suggestions say, in order.
pub open spec fn all_say_the_same(
    report: ResolveReport,
    items: Seq<SuggestItem>,
    r: Seq<JsonSuggestItem>,
) -> bool {
    r.len() == items.len() && forall|k: int|
        0 <= k < r.len() ==> says_the_same(report, items[k], #[trigger] r[k])
}

proof fn lemma_items(report: ResolveReport, items: Seq<SuggestItem>, r: Seq<JsonSuggestItem>)
    requires
        sorted_map::views(r) == json::json_items(
            report.packages@,
            report.criteria_mapper,
            sorted_map::views(items),
        ),
    ensures
        all_say_the_same(report, items, r),
{
    let v = sorted_map::views(r);
    let s = sorted_map::views(items);
    assert(v.len() == r.len());
    assert(s.len() == items.len());
    assert forall|k: int| 0 <= k < r.len() implies says_the_same(
        report,
        items[k],
        #[trigger] r[k],
    ) by {
        assert(v[k] == r[k]@);
        assert(s[k] == items[k]@);
        assert(v[k] == json::json_item(report.packages@, report.criteria_mapper, s[k]));
    }
}

/// The suggestions of a report say what is suggested, as a list and by criteria.
pub proof fn law_reports_repeat_suggestions(
    report: ResolveReport,
    suggest: Suggest,
    r: JsonReport,
    k: int,
)
    requires
        call_ensures(ResolveReport::print_json, (&report, Some(&suggest)), r),
        report.conclusion is FailForVet,
    ensures
        r.conclusion matches JsonReportConclusion::FailForVet(j) && j.suggest is Some,
        ({
            let t = r.conclusion->FailForVet_0.suggest->0;
            let groups = suggest.suggestions_by_criteria.entries();
            &&& t.total_lines == suggest.total_lines
            &&& all_say_the_same(report, suggest.suggestions@, t.suggestions@)
            &&& t.suggest_by_criteria.entries().len() == groups.len()
            &&& 0 <= k < groups.len() ==> t.suggest_by_criteria.entries()[k].0@ == groups[k].0@
                && all_say_the_same(
                report,
                groups[k].1@,
                t.suggest_by_criteria.entries()[k].1@,
            )
        }),
{
    let t = r.conclusion->FailForVet_0.suggest->0;
    let groups = suggest.suggestions_by_criteria.entries();
    lemma_items(report, suggest.suggestions@, t.suggestions@);
    assert(t.suggest_by_criteria.keys().len() == suggest.suggestions_by_criteria.keys().len());
    if 0 <= k < groups.len() {
        assert(t.suggest_by_criteria.keys()[k] == suggest.suggestions_by_criteria.keys()[k]);
        lemma_items(report, groups[k].1@, t.suggest_by_criteria.entries()[k].1@);
    }
}

/// The report of contradictions has those of every package, under its name and
/// version, unless a later package has both in common with it.
pub proof fn law_reports_name_contradictions(
    report: ResolveReport,
    suggest: Option<&Suggest>,
    r: JsonReport,
    k: int,
    t: String,
)
    requires
        call_ensures(ResolveReport::print_json, (&report, suggest), r),
        report.conclusion is FailForViolationConflict,
        0 <= k < report.conclusion->FailForViolationConflict_0.violations@.len(),
        call_ensures(
            package_to_text,
            (&report.packages@[report.conclusion->FailForViolationConflict_0.violations@[k].0 as int],),
            t,
        ),
        forall|x: int|
            k < x < report.conclusion->FailForViolationConflict_0.violations@.len() ==> !is_text_of(
                report,
                #[trigger] report.conclusion->FailForViolationConflict_0.violations@[x].0 as int,
                t,
            ),
    ensures
        ({
            let v = report.conclusion->FailForViolationConflict_0.violations@[k];
            let map = r.conclusion->FailForViolationConflict_0.violations;
            map.get_spec(t@) matches Some(list) && sorted_map::views(list@) == sorted_map::views(
                v.1@,
            )
        }),
{
    let s = report.conclusion->FailForViolationConflict_0.violations@;
    let map = r.conclusion->FailForViolationConflict_0.violations;
    lemma_last(report, s, k, t);
    assert((match map.get_spec(t@) {
        Some(list) => Some(sorted_map::views(list@)),
        None => None,
    }) == json::conflicts_for(report.packages@, s, t@));
}

/// Whether a text is that of a package.
pub open spec fn is_text_of(report: ResolveReport, p: int, t: String) -> bool {
    print::package_text(report.packages@[p]) == t@
}

proof fn lemma_last(
    report: ResolveReport,
    s: Seq<(usize, Vec<ViolationConflict>)>,
    k: int,
    t: String,
)
    requires
        0 <= k < s.len(),
        is_text_of(report, s[k].0 as int, t),
        forall|x: int|
            k < x < s.len() ==> !is_text_of(report, #[trigger] s[x].0 as int, t),
    ensures
        json::conflicts_for(report.packages@, s, t@) == Some(sorted_map::views(s[k].1@)),
    decreases s.len(),
{
    if k < s.len() - 1 {
        let u = s.drop_last();
        assert(!is_text_of(report, s[s.len() - 1].0 as int, t));
        assert forall|x: int| k < x < u.len() implies !is_text_of(
            report,
            #[trigger] u[x].0 as int,
            t,
        ) by {
            assert(u[x] == s[x]);
            assert(!is_text_of(report, s[x].0 as int, t));
        }
        lemma_last(report, u, k, t);
    }
}

} // verus!
