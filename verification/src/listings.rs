//! How suggested audits are listed.

use vstd::prelude::*;
use crate::audit_graph::SearchFailure;
use crate::criteria;
use crate::criteria::CriteriaMapper;
use crate::edges::DeltaEdgeOrigin;
use crate::order;
use crate::packages::Package;
use crate::resolve::{Conclusion, ResolveReport};
use crate::retain;
use crate::sorted_map;
use crate::suggest;
use crate::suggest::{criteria_to_text, PackageSuggestion, Suggest, SuggestItemView};
use crate::text;
use crate::version;

verus! {

/// Whether two suggestions are for the same change of packages of the same name.
pub open spec fn is_same_audit(
    packages: Seq<Package>,
    a: SuggestItemView,
    b: SuggestItemView,
) -> bool {
    &&& packages[a.package as int].name@ == packages[b.package as int].name@
    &&& a.suggested_diff.from == b.suggested_diff.from
    &&& a.suggested_diff.to == b.suggested_diff.to
    &&& a.suggested_diff.diffstat == b.suggested_diff.diffstat
}

/// The place of a suggestion on the list: fewer lines first, then by the name of the
/// package and the version that it leads to.
pub open spec fn place(packages: Seq<Package>, x: SuggestItemView) -> Seq<u64> {
    seq![
        (x.suggested_diff.diffstat.insertions + x.suggested_diff.diffstat.deletions) as u64,
    ] + text::text_key(packages[x.package as int].name@) + version::vet_version_key(
        x.suggested_diff.to,
    )
}

/// Whether a suggestion is what becomes of one that was found: nothing of it changes
/// but its parents, which are those of all suggestions for the same audit, in order
/// and each once; and it is the first of these.
pub open spec fn is_made_of(
    packages: Seq<Package>,
    items: Seq<SuggestItemView>,
    x: SuggestItemView,
    k: int,
) -> bool {
    &&& 0 <= k < items.len()
    &&& x.package == items[k].package
    &&& x.suggested_criteria == items[k].suggested_criteria
    &&& x.suggested_diff == items[k].suggested_diff
    &&& x.publisher_login == items[k].publisher_login
    &&& x.trust_hint == items[k].trust_hint
    &&& x.is_sole_publisher == items[k].is_sole_publisher
    &&& x.registry_suggestion == items[k].registry_suggestion
    &&& forall|j: int| 0 <= j < k ==> !is_same_audit(packages, #[trigger] items[j], items[k])
    &&& forall|t: Seq<char>| #[trigger]
        x.notable_parents.contains(t) <==> exists|j: int|
            0 <= j < items.len() && is_same_audit(packages, #[trigger] items[j], items[k])
                && items[j].notable_parents.contains(t)
    &&& forall|i: int, j: int|
        0 <= i < j < x.notable_parents.len() ==> order::lex_lt(
            text::text_key(#[trigger] x.notable_parents[i]),
            text::text_key(#[trigger] x.notable_parents[j]),
        )
}

/// What merging keeps of each suggestion: the first of each audit, in order, with the
/// parents of all.
spec fn is_source(
    packages: Seq<Package>,
    s: Seq<SuggestItemView>,
    x: SuggestItemView,
    k: int,
) -> bool {
    &&& 0 <= k < s.len()
    &&& x == (SuggestItemView { notable_parents: x.notable_parents, ..s[k] })
    &&& forall|j: int| 0 <= j < k ==> !suggest::same_audit(packages, #[trigger] s[j], s[k])
    &&& forall|t: Seq<char>| #[trigger]
        x.notable_parents.contains(t) <==> exists|j: int|
            0 <= j < s.len() && suggest::same_audit(packages, #[trigger] s[j], s[k])
                && s[j].notable_parents.contains(t)
}

proof fn lemma_sources(packages: Seq<Package>, s: Seq<SuggestItemView>) -> (from: Seq<int>)
    ensures
        from.len() == suggest::merged(packages, s).len(),
        forall|i: int|
            0 <= i < from.len() ==> is_source(
                packages,
                s,
                suggest::merged(packages, s)[i],
                #[trigger] from[i],
            ),
        forall|i: int, j: int| 0 <= i < j < from.len() ==> #[trigger] from[i] < #[trigger] from[j],
    decreases s.len(),
{
    if s.len() == 0 {
        Seq::empty()
    } else {
        let t = s.drop_last();
        let n = s.len() - 1;
        let item = s.last();
        let rest = suggest::merged(packages, t);
        let r = suggest::merged(packages, s);
        let k = suggest::audit_position(packages, rest, item);
        let old = lemma_sources(packages, t);
        suggest::lemma_merged(packages, t);
        suggest::lemma_audit_position(packages, rest, item);
        let from = if k < rest.len() {
            old
        } else {
            old.push(n)
        };
        assert forall|i: int| 0 <= i < from.len() implies is_source(
            packages,
            s,
            r[i],
            #[trigger] from[i],
        ) by {
            if i < rest.len() {
                let z = old[i];
                assert(is_source(packages, t, rest[i], z));
                assert(s[z] == t[z]);
                if i != k {
                    assert(r[i] == rest[i]);
                    assert(!suggest::same_audit(packages, item, s[z])) by {
                        if k < rest.len() {
                            if i < k {
                                assert(!suggest::same_audit(packages, rest[i], rest[k]));
                            } else {
                                assert(!suggest::same_audit(packages, rest[k], rest[i]));
                            }
                        } else {
                            assert(!suggest::same_audit(packages, rest[i], item));
                        }
                    }
                } else {
                    assert(r[i] == suggest::with_parents(rest[i], item.notable_parents));
                    assert(suggest::same_audit(packages, item, s[z]));
                }
                assert forall|j: int| 0 <= j < z implies !suggest::same_audit(
                    packages,
                    #[trigger] s[j],
                    s[z],
                ) by {
                    assert(t[j] == s[j]);
                }
                assert forall|w: Seq<char>| #[trigger]
                    r[i].notable_parents.contains(w) <==> exists|j: int|
                    0 <= j < s.len() && suggest::same_audit(packages, #[trigger] s[j], s[z])
                        && s[j].notable_parents.contains(w) by {
                    lemma_parents(packages, s, rest[i], r[i], z, i == k, w);
                }
            } else {
                assert(r[i] == item);
                assert forall|j: int| 0 <= j < n implies !suggest::same_audit(
                    packages,
                    #[trigger] s[j],
                    item,
                ) by {
                    assert(t[j] == s[j]);
                    assert(suggest::is_covered(packages, rest, t[j]));
                    let y = choose|y: int|
                        0 <= y < rest.len() && suggest::stands_for(
                            packages,
                            #[trigger] rest[y],
                            t[j],
                        );
                    assert(!suggest::same_audit(packages, rest[y], item));
                }
                assert forall|w: Seq<char>| #[trigger]
                    item.notable_parents.contains(w) <==> exists|j: int|
                    0 <= j < s.len() && suggest::same_audit(packages, #[trigger] s[j], s[n])
                        && s[j].notable_parents.contains(w) by {
                    if item.notable_parents.contains(w) {
                        assert(suggest::same_audit(packages, s[n], s[n]));
                    }
                    if exists|j: int|
                        0 <= j < s.len() && suggest::same_audit(packages, #[trigger] s[j], s[n])
                            && s[j].notable_parents.contains(w) {
                        let j = choose|j: int|
                            0 <= j < s.len() && suggest::same_audit(packages, #[trigger] s[j], s[n])
                                && s[j].notable_parents.contains(w);
                        assert(j == n);
                    }
                }
            }
        }
        assert forall|i: int, j: int| 0 <= i < j < from.len() implies #[trigger] from[i]
            < #[trigger] from[j] by {
            assert(from[i] == old[i]);
            if j < old.len() {
                assert(from[j] == old[j]);
            } else {
                assert(is_source(packages, t, rest[i], old[i]));
            }
        }
        from
    }
}

proof fn lemma_parents(
    packages: Seq<Package>,
    s: Seq<SuggestItemView>,
    before: SuggestItemView,
    after: SuggestItemView,
    z: int,
    hit: bool,
    w: Seq<char>,
)
    requires
        s.len() > 0,
        is_source(packages, s.drop_last(), before, z),
        hit == suggest::same_audit(packages, s.last(), s[z]),
        hit ==> after.notable_parents == before.notable_parents + s.last().notable_parents,
        !hit ==> after.notable_parents == before.notable_parents,
    ensures
        after.notable_parents.contains(w) <==> exists|j: int|
            0 <= j < s.len() && suggest::same_audit(packages, #[trigger] s[j], s[z])
                && s[j].notable_parents.contains(w),
{
    let t = s.drop_last();
    let n = s.len() - 1;
    let a = before.notable_parents;
    let b = s.last().notable_parents;
    if after.notable_parents.contains(w) {
        let y = choose|y: int| 0 <= y < after.notable_parents.len() && after.notable_parents[y] == w;
        if y < a.len() {
            assert(a[y] == w);
            assert(before.notable_parents.contains(w));
            let j = choose|j: int|
                0 <= j < t.len() && suggest::same_audit(packages, #[trigger] t[j], t[z])
                    && t[j].notable_parents.contains(w);
            assert(s[j] == t[j]);
            assert(suggest::same_audit(packages, s[j], s[z]));
        } else {
            assert(b[y - a.len()] == w);
            assert(suggest::same_audit(packages, s[n], s[z]));
        }
    }
    if exists|j: int|
        0 <= j < s.len() && suggest::same_audit(packages, #[trigger] s[j], s[z])
            && s[j].notable_parents.contains(w) {
        let j = choose|j: int|
            0 <= j < s.len() && suggest::same_audit(packages, #[trigger] s[j], s[z])
                && s[j].notable_parents.contains(w);
        if j < n {
            assert(t[j] == s[j]);
            assert(suggest::same_audit(packages, t[j], t[z]));
            assert(before.notable_parents.contains(w));
            let y = choose|y: int| 0 <= y < a.len() && a[y] == w;
            assert(after.notable_parents[y] == w);
        } else {
            let y = choose|y: int| 0 <= y < b.len() && b[y] == w;
            assert(after.notable_parents[a.len() + y] == w);
        }
    }
}

proof fn lemma_same(packages: Seq<Package>, a: SuggestItemView, b: SuggestItemView)
    ensures
        suggest::same_audit(packages, a, b) <==> is_same_audit(packages, a, b),
{
    if is_same_audit(packages, a, b) {
        assert(a.suggested_diff =~= b.suggested_diff);
    }
}

/// Every suggestion is what becomes of one that was found.
pub proof fn law_suggestions_are_those_found(
    packages: Seq<Package>,
    m: CriteriaMapper,
    items: Seq<SuggestItemView>,
    r: Suggest,
    i: int,
)
    requires
        suggest::is_suggest(packages, m, items, r),
        items.len() <= usize::MAX,
        0 <= i < r.suggestions@.len(),
    ensures
        exists|k: int| is_made_of(packages, items, r.suggestions@[i]@, k),
{
    let (k, place_of) = lemma_made(packages, m, items, r);
    assert(is_made_of(packages, items, r.suggestions@[i]@, k[i]));
}

/// Every suggestion that was found is on the list, as one for the same audit.
pub proof fn law_no_suggestion_is_lost(
    packages: Seq<Package>,
    m: CriteriaMapper,
    items: Seq<SuggestItemView>,
    r: Suggest,
    k: int,
)
    requires
        suggest::is_suggest(packages, m, items, r),
        0 <= k < items.len(),
    ensures
        exists|i: int|
            0 <= i < r.suggestions@.len() && is_same_audit(
                packages,
                (#[trigger] r.suggestions@[i])@,
                items[k],
            ),
{
    let list = sorted_map::views(r.suggestions@);
    assert(suggest::is_covered(packages, list, items[k]));
    let i = choose|i: int|
        0 <= i < list.len() && suggest::stands_for(packages, #[trigger] list[i], items[k]);
    lemma_same(packages, list[i], items[k]);
    assert(list[i] == r.suggestions@[i]@);
}

/// No audit is suggested twice, and suggestions stand in order: the fewest lines
/// first, then by name and version.
pub proof fn law_suggestions_are_ordered(
    packages: Seq<Package>,
    m: CriteriaMapper,
    items: Seq<SuggestItemView>,
    r: Suggest,
    i: int,
    j: int,
)
    requires
        suggest::is_suggest(packages, m, items, r),
        items.len() <= usize::MAX,
        0 <= i < j < r.suggestions@.len(),
    ensures
        !is_same_audit(packages, r.suggestions@[i]@, r.suggestions@[j]@),
        order::lex_le(
            place(packages, r.suggestions@[i]@),
            place(packages, r.suggestions@[j]@),
        ),
{
    let list = sorted_map::views(r.suggestions@);
    let (k, places) = lemma_made(packages, m, items, r);
    lemma_same(packages, list[i], list[j]);
    assert(suggest::audits_differ(packages, list));
    assert(list[i] == r.suggestions@[i]@ && list[j] == r.suggestions@[j]@);
    assert(order::lex_le(places[i], places[j]));
}

/// What each suggestion is made of, and its place.
proof fn lemma_made(
    packages: Seq<Package>,
    m: CriteriaMapper,
    items: Seq<SuggestItemView>,
    r: Suggest,
) -> (k: (Seq<int>, Seq<Seq<u64>>))
    requires
        suggest::is_suggest(packages, m, items, r),
        items.len() <= usize::MAX,
    ensures
        k.0.len() == r.suggestions@.len(),
        k.1.len() == r.suggestions@.len(),
        forall|i: int|
            0 <= i < r.suggestions@.len() ==> is_made_of(
                packages,
                items,
                (#[trigger] r.suggestions@[i])@,
                k.0[i],
            ) && k.1[i] == place(packages, r.suggestions@[i]@),
        forall|i: int, j: int|
            0 <= i < j < k.1.len() ==> order::lex_le(#[trigger] k.1[i], #[trigger] k.1[j]),
{
    let list = sorted_map::views(r.suggestions@);
    let keys = suggest::item_keys(packages, items);
    let order = choose|order: Seq<usize>| #[trigger]
        order::is_stable_order(keys, order) && suggest::are_tidied(
            list,
            suggest::merged(packages, suggest::pick_items(items, order)),
        );
    let s = suggest::pick_items(items, order);
    let all = suggest::merged(packages, s);
    let from = lemma_sources(packages, s);
    let sources = Seq::new(list.len(), |i: int| order[from[i]] as int);
    let places = Seq::new(list.len(), |i: int| keys[order[from[i]] as int]);
    assert(list.len() == r.suggestions@.len());
    assert forall|i: int| 0 <= i < r.suggestions@.len() implies is_made_of(
        packages,
        items,
        (#[trigger] r.suggestions@[i])@,
        sources[i],
    ) && places[i] == place(packages, r.suggestions@[i]@) by {
        assert(list[i] == r.suggestions@[i]@);
        assert(suggest::is_tidied(list[i], all[i]));
        assert(is_source(packages, s, all[i], from[i]));
        lemma_made_of(packages, items, order, list[i], all[i], from[i]);
    }
    assert forall|i: int, j: int| 0 <= i < j < places.len() implies order::lex_le(
        #[trigger] places[i],
        #[trigger] places[j],
    ) by {
        assert(from[i] < from[j]);
        assert(is_source(packages, s, all[i], from[i]));
        assert(is_source(packages, s, all[j], from[j]));
        assert(order[from[i]] as int != order[from[j]] as int);
    }
    (sources, places)
}

proof fn lemma_made_of(
    packages: Seq<Package>,
    items: Seq<SuggestItemView>,
    order: Seq<usize>,
    x: SuggestItemView,
    y: SuggestItemView,
    z: int,
)
    requires
        items.len() <= usize::MAX,
        order::is_stable_order(suggest::item_keys(packages, items), order),
        suggest::is_tidied(x, y),
        is_source(packages, suggest::pick_items(items, order), y, z),
    ensures
        is_made_of(packages, items, x, order[z] as int),
        place(packages, x) == suggest::item_keys(packages, items)[order[z] as int],
{
    let keys = suggest::item_keys(packages, items);
    let s = suggest::pick_items(items, order);
    let k = order[z] as int;
    assert(s[z] == items[k]);
    assert(order[z] < items.len());
    assert forall|j: int| 0 <= j < k implies !is_same_audit(
        packages,
        #[trigger] items[j],
        items[k],
    ) by {
        lemma_same(packages, items[j], items[k]);
        if suggest::same_audit(packages, items[j], items[k]) {
            let n = order::lemma_order_has(keys, order, j);
            assert(s[n] == items[j]);
            assert(keys[j] == keys[k]);
            if n < z {
                assert(!suggest::same_audit(packages, s[n], s[z]));
            } else if z < n {
                assert(order[z] as int != order[n] as int);
            }
        }
    }
    assert forall|t: Seq<char>| #[trigger] x.notable_parents.contains(t) <==> exists|j: int|
        0 <= j < items.len() && is_same_audit(packages, #[trigger] items[j], items[k])
            && items[j].notable_parents.contains(t) by {
        assert(x.notable_parents.contains(t) == y.notable_parents.contains(t));
        if y.notable_parents.contains(t) {
            let n = choose|n: int|
                0 <= n < s.len() && suggest::same_audit(packages, #[trigger] s[n], s[z])
                    && s[n].notable_parents.contains(t);
            assert(order[n] < items.len());
            lemma_same(packages, items[order[n] as int], items[k]);
            assert(s[n] == items[order[n] as int]);
            assert(is_same_audit(packages, items[order[n] as int], items[k]));
        }
        if exists|j: int|
            0 <= j < items.len() && is_same_audit(packages, #[trigger] items[j], items[k])
                && items[j].notable_parents.contains(t) {
            let j = choose|j: int|
                0 <= j < items.len() && is_same_audit(packages, #[trigger] items[j], items[k])
                    && items[j].notable_parents.contains(t);
            lemma_same(packages, items[j], items[k]);
            let n = order::lemma_order_has(keys, order, j);
            assert(s[n] == items[j]);
            assert(suggest::same_audit(packages, s[n], s[z]));
        }
    }
    assert(keys[k] == suggest::item_key(packages, items[k]));
}

/// The lines of the list add up to its total.
pub proof fn law_lines_add_up(
    packages: Seq<Package>,
    m: CriteriaMapper,
    items: Seq<SuggestItemView>,
    r: Suggest,
)
    requires
        suggest::is_suggest(packages, m, items, r),
    ensures
        exists|sums: Seq<int>|
            {
                &&& #[trigger] sums.len() == r.suggestions@.len() + 1
                &&& sums[0] == 0
                &&& forall|k: int|
                    0 <= k < r.suggestions@.len() ==> sums[k + 1] == sums[k] + (
                    #[trigger] r.suggestions@[k]).suggested_diff.diffstat.insertions
                        + r.suggestions@[k].suggested_diff.diffstat.deletions
                &&& sums[r.suggestions@.len() as int] == r.total_lines
            },
{
    let list = sorted_map::views(r.suggestions@);
    let sums = Seq::new(list.len() + 1, |k: int| suggest::total(list.take(k)));
    assert(list.take(0) =~= Seq::<SuggestItemView>::empty());
    assert forall|k: int| 0 <= k < r.suggestions@.len() implies sums[k + 1] == sums[k] + (
    #[trigger] r.suggestions@[k]).suggested_diff.diffstat.insertions
        + r.suggestions@[k].suggested_diff.diffstat.deletions by {
        assert(list.take(k + 1).drop_last() =~= list.take(k));
        assert(list.take(k + 1).last() == r.suggestions@[k]@);
    }
    assert(list.take(list.len() as int) =~= list);
    assert(sums.len() == r.suggestions@.len() + 1);
}

/// Every suggestion stands in the group of its criteria, and in no other.
pub proof fn law_suggestions_are_grouped_by_criteria(
    packages: Seq<Package>,
    m: CriteriaMapper,
    items: Seq<SuggestItemView>,
    r: Suggest,
    x: SuggestItemView,
    t: String,
)
    requires
        suggest::is_suggest(packages, m, items, r),
        call_ensures(criteria_to_text, (&m, &x.suggested_criteria), t),
    ensures
        sorted_map::views(r.suggestions@).contains(x) ==> sorted_map::views_at(
            r.suggestions_by_criteria,
            t@,
        ).contains(x),
        forall|g: Seq<char>| #[trigger]
            sorted_map::views_at(r.suggestions_by_criteria, g).contains(x) ==> g == t@
                && sorted_map::views(r.suggestions@).contains(x),
{
    let list = sorted_map::views(r.suggestions@);
    assert(t@ == suggest::criteria_text(m, x.suggested_criteria));
    if list.contains(x) {
        let flags = Seq::new(
            list.len(),
            |j: int| suggest::criteria_text(m, list[j].suggested_criteria) == t@,
        );
        let j = choose|j: int| 0 <= j < list.len() && list[j] == x;
        let n = retain::lemma_kept_has(list, flags, j);
        let found = r.suggestions_by_criteria.get_spec(t@);
        assert(sorted_map::views_at(r.suggestions_by_criteria, t@) == suggest::for_criteria(
            m,
            list,
            t@,
        ));
        assert(sorted_map::views_at(r.suggestions_by_criteria, t@)[n] == x);
    }
    assert forall|g: Seq<char>| #[trigger]
        sorted_map::views_at(r.suggestions_by_criteria, g).contains(x) implies g == t@
        && list.contains(x) by {
        let found = r.suggestions_by_criteria.get_spec(g);
        let flags = Seq::new(
            list.len(),
            |j: int| suggest::criteria_text(m, list[j].suggested_criteria) == g,
        );
        assert(sorted_map::views_at(r.suggestions_by_criteria, g) == suggest::for_criteria(
            m,
            list,
            g,
        ));
        let j = retain::lemma_kept_member(list, flags, x);
        assert(list[j] == x);
    }
}

/// Whether a failure is that of the search for a criterion of a failed package.
pub open spec fn is_failed_search(
    report: ResolveReport,
    k: int,
    i: int,
    failure: SearchFailure,
) -> bool {
    let (p, found) = report.conclusion->FailForVet_0.failures@[k];
    found.criteria_failures.has(i) && report.results@[p as int]->0.search_results@[i] == Err::<
        Vec<DeltaEdgeOrigin>,
        SearchFailure,
    >(failure)
}

/// The failures of a package are those of the searches for each criterion that it
/// fails.
pub proof fn law_failed_searches_are_listed(
    report: ResolveReport,
    k: usize,
    r: Vec<&SearchFailure>,
    i: int,
    j: int,
)
    requires
        report.wf(),
        report.conclusion matches Conclusion::FailForVet(f) && k < f.failures@.len(),
        call_ensures(ResolveReport::search_failures, (&report, k), r),
    ensures
        report.conclusion->FailForVet_0.failures@[k as int].1.criteria_failures.has(i) ==> exists|
            x: int,
        |
            0 <= x < r@.len() && is_failed_search(report, k as int, i, *(#[trigger] r@[x])),
        0 <= j < r@.len() ==> exists|x: int| is_failed_search(report, k as int, x, *r@[j]),
{
    let failure = report.conclusion->FailForVet_0.failures@[k as int];
    let set = failure.1.criteria_failures;
    let indices = criteria::indices(set);
    criteria::lemma_indices_below(set, 64);
    if set.has(i) {
        assert(indices.contains(i as usize));
        let x = choose|x: int| 0 <= x < indices.len() && indices[x] == i as usize;
        assert(is_failed_search(report, k as int, i, *r@[x]));
    }
    if 0 <= j < r@.len() {
        assert(indices.contains(indices[j]));
        assert(set.has(indices[j] as int));
        assert(is_failed_search(report, k as int, indices[j] as int, *r@[j]));
    }
}

/// Whether a suggestion is for a change of the package of a finding: the suggested
/// one, with all that was found out about it, or the extra one, without hints.
pub open spec fn is_item_of(
    packages: Seq<Package>,
    found: PackageSuggestion,
    x: SuggestItemView,
    is_extra: bool,
) -> bool {
    &&& x.package == found.package
    &&& x.suggested_criteria == found.suggested_criteria
    &&& forall|t: Seq<char>| #[trigger]
        x.notable_parents.contains(t) <==> exists|q: int, k: int|
            0 <= q < packages.len() && packages[q].name@ == t && 0 <= k < packages[q].links@.len()
                && (#[trigger] packages[q].links@[k]).to == found.package
    &&& if is_extra {
        &&& found.extra_diff is Some
        &&& x.suggested_diff == found.extra_diff->0@
        &&& x.publisher_login is None
        &&& x.trust_hint is None
        &&& !x.is_sole_publisher
        &&& x.registry_suggestion.len() == 0
    } else {
        &&& x.suggested_diff == found.suggested_diff@
        &&& x.publisher_login == text::opt_text(found.publisher_login)
        &&& x.trust_hint == suggest::opt_hint(found.trust_hint)
        &&& x.is_sole_publisher == found.is_sole_publisher
        &&& x.registry_suggestion == sorted_map::views(found.registry_suggestion@)
    }
}

proof fn lemma_parents_of(packages: Seq<Package>, p: int, t: Seq<char>)
    ensures
        suggest::parents(packages, p).contains(t) <==> exists|q: int, k: int|
            0 <= q < packages.len() && packages[q].name@ == t && 0 <= k < packages[q].links@.len()
                && (#[trigger] packages[q].links@[k]).to == p,
{
    let names = packages.map_values(|q: Package| q.name@);
    let flags = Seq::new(packages.len(), |q: int| suggest::depends_on(packages[q], p));
    if suggest::parents(packages, p).contains(t) {
        let q = retain::lemma_kept_member(names, flags, t);
        let k = choose|k: int|
            0 <= k < packages[q].links@.len() && (#[trigger] packages[q].links@[k]).to == p;
        assert(packages[q].links@[k].to == p);
    }
    if exists|q: int, k: int|
        0 <= q < packages.len() && packages[q].name@ == t && 0 <= k < packages[q].links@.len() && (
        #[trigger] packages[q].links@[k]).to == p {
        let (q, k) = choose|q: int, k: int|
            0 <= q < packages.len() && packages[q].name@ == t && 0 <= k < packages[q].links@.len()
                && (#[trigger] packages[q].links@[k]).to == p;
        assert(suggest::depends_on(packages[q], p));
        let x = retain::lemma_kept_has(names, flags, q);
        assert(suggest::parents(packages, p)[x] == t);
    }
}

/// The items of findings are those of each finding, and no others.
proof fn lemma_items(packages: Seq<Package>, found: Seq<PackageSuggestion>)
    ensures
        forall|n: int|
            0 <= n < ResolveReport::suggest_items(packages, found).len() ==> is_some_item(
                packages,
                found,
                #[trigger] ResolveReport::suggest_items(packages, found)[n],
            ),
        forall|k: int, is_extra: bool|
            0 <= k < found.len() && (is_extra ==> found[k].extra_diff is Some)
                ==> #[trigger] has_item(
                packages,
                ResolveReport::suggest_items(packages, found),
                found[k],
                is_extra,
            ),
    decreases found.len(),
{
    if found.len() > 0 {
        let t = found.drop_last();
        let n = found.len() - 1;
        let rest = ResolveReport::suggest_items(packages, t);
        let last = found.last().items(packages);
        let all = ResolveReport::suggest_items(packages, found);
        lemma_items(packages, t);
        assert forall|w: Seq<char>| #[trigger]
            suggest::parents(packages, found.last().package as int).contains(w) <==> exists|
            q: int,
            k: int,
        |
            0 <= q < packages.len() && packages[q].name@ == w && 0 <= k < packages[q].links@.len()
                && (#[trigger] packages[q].links@[k]).to == found.last().package by {
            lemma_parents_of(packages, found.last().package as int, w);
        }
        assert(is_item_of(packages, found.last(), last.last(), false));
        if found.last().extra_diff is Some {
            assert(is_item_of(packages, found.last(), last[0], true));
        }
        assert forall|i: int| 0 <= i < all.len() implies is_some_item(
            packages,
            found,
            #[trigger] all[i],
        ) by {
            if i < rest.len() {
                assert(all[i] == rest[i]);
                let k = choose|k: int|
                    0 <= k < t.len() && (is_item_of(packages, #[trigger] t[k], rest[i], true)
                        || is_item_of(packages, t[k], rest[i], false));
                assert(found[k] == t[k]);
            } else {
                assert(all[i] == last[i - rest.len()]);
                assert(found[n] == found.last());
                if i - rest.len() == last.len() - 1 {
                    assert(is_item_of(packages, found[n], all[i], false));
                } else {
                    assert(is_item_of(packages, found[n], all[i], true));
                }
            }
        }
        assert forall|k: int, is_extra: bool|
            0 <= k < found.len() && (is_extra ==> found[k].extra_diff is Some) implies
            #[trigger] has_item(packages, all, found[k], is_extra) by {
            if k < n {
                assert(t[k] == found[k]);
                assert(has_item(packages, rest, t[k], is_extra));
                let i = choose|i: int|
                    0 <= i < rest.len() && is_item_of(
                        packages,
                        t[k],
                        #[trigger] rest[i],
                        is_extra,
                    );
                assert(all[i] == rest[i]);
            } else if is_extra {
                assert(all[rest.len() as int] == last[0]);
            } else {
                assert(all[all.len() - 1] == last.last());
            }
        }
    }
}

spec fn is_some_item(
    packages: Seq<Package>,
    found: Seq<PackageSuggestion>,
    x: SuggestItemView,
) -> bool {
    exists|k: int|
        0 <= k < found.len() && (is_item_of(packages, #[trigger] found[k], x, true) || is_item_of(
            packages,
            found[k],
            x,
            false,
        ))
}

spec fn has_item(
    packages: Seq<Package>,
    items: Seq<SuggestItemView>,
    found: PackageSuggestion,
    is_extra: bool,
) -> bool {
    exists|i: int| 0 <= i < items.len() && is_item_of(packages, found, #[trigger] items[i], is_extra)
}

/// Suggestions are made exactly if packages failed. For every finding its change is
/// suggested, and its extra change if it has one.
pub proof fn law_findings_are_suggested(
    report: ResolveReport,
    found: Vec<PackageSuggestion>,
    warnings: Vec<String>,
    r: Option<Suggest>,
    k: int,
)
    requires
        call_ensures(ResolveReport::compute_suggest, (&report, found, warnings), r),
    ensures
        r is Some <==> report.conclusion is FailForVet,
        r matches Some(s) ==> s.warnings == warnings && (0 <= k < found@.len() ==> {
            let name = report.packages@[found@[k].package as int].name@;
            &&& exists|i: int|
                {
                    &&& 0 <= i < s.suggestions@.len()
                    &&& report.packages@[(#[trigger] s.suggestions@[i]).package as int].name@
                        == name
                    &&& s.suggestions@[i]@.suggested_diff == found@[k].suggested_diff@
                }
            &&& found@[k].extra_diff is Some ==> exists|i: int|
                {
                    &&& 0 <= i < s.suggestions@.len()
                    &&& report.packages@[(#[trigger] s.suggestions@[i]).package as int].name@
                        == name
                    &&& s.suggestions@[i]@.suggested_diff == found@[k].extra_diff->0@
                }
        }),
{
    if let Some(s) = r {
        if 0 <= k < found@.len() {
            let items = ResolveReport::suggest_items(report.packages@, found@);
            lemma_items(report.packages@, found@);
            lemma_suggested(report, found@, s, k, false);
            if found@[k].extra_diff is Some {
                lemma_suggested(report, found@, s, k, true);
            }
        }
    }
}

proof fn lemma_suggested(
    report: ResolveReport,
    found: Seq<PackageSuggestion>,
    s: Suggest,
    k: int,
    is_extra: bool,
)
    requires
        suggest::is_suggest(
            report.packages@,
            report.criteria_mapper,
            ResolveReport::suggest_items(report.packages@, found),
            s,
        ),
        0 <= k < found.len(),
        is_extra ==> found[k].extra_diff is Some,
    ensures
        exists|i: int|
            {
                &&& 0 <= i < s.suggestions@.len()
                &&& report.packages@[(#[trigger] s.suggestions@[i]).package as int].name@
                    == report.packages@[found[k].package as int].name@
                &&& s.suggestions@[i]@.suggested_diff == if is_extra {
                    found[k].extra_diff->0@
                } else {
                    found[k].suggested_diff@
                }
            },
{
    let packages = report.packages@;
    let items = ResolveReport::suggest_items(packages, found);
    lemma_items(packages, found);
    assert(has_item(packages, items, found[k], is_extra));
    let n = choose|n: int|
        0 <= n < items.len() && is_item_of(packages, found[k], #[trigger] items[n], is_extra);
    law_no_suggestion_is_lost(packages, report.criteria_mapper, items, s, n);
    let i = choose|i: int|
        0 <= i < s.suggestions@.len() && is_same_audit(
            packages,
            (#[trigger] s.suggestions@[i])@,
            items[n],
        );
    assert(s.suggestions@[i]@.suggested_diff =~= items[n].suggested_diff);
}

/// Every suggestion is for the package, the criteria and a change of a finding, and
/// says of it what was found out.
pub proof fn law_suggestions_are_findings(
    report: ResolveReport,
    found: Vec<PackageSuggestion>,
    warnings: Vec<String>,
    s: Suggest,
    i: int,
)
    requires
        call_ensures(ResolveReport::compute_suggest, (&report, found, warnings), Some(s)),
        ResolveReport::suggest_items(report.packages@, found@).len() <= usize::MAX,
        0 <= i < s.suggestions@.len(),
    ensures
        exists|k: int|
            {
                let x = s.suggestions@[i]@;
                &&& 0 <= k < found@.len()
                &&& x.package == (#[trigger] found@[k]).package
                &&& x.suggested_criteria == found@[k].suggested_criteria
                &&& {
                    ||| x.suggested_diff == found@[k].suggested_diff@ && x.publisher_login
                        == text::opt_text(found@[k].publisher_login) && x.trust_hint
                        == suggest::opt_hint(found@[k].trust_hint) && x.is_sole_publisher
                        == found@[k].is_sole_publisher && x.registry_suggestion
                        == sorted_map::views(found@[k].registry_suggestion@)
                    ||| found@[k].extra_diff is Some && x.suggested_diff
                        == found@[k].extra_diff->0@ && x.publisher_login is None
                        && x.trust_hint is None && !x.is_sole_publisher
                        && x.registry_suggestion.len() == 0
                }
            },
{
    let packages = report.packages@;
    let items = ResolveReport::suggest_items(packages, found@);
    lemma_items(packages, found@);
    law_suggestions_are_those_found(packages, report.criteria_mapper, items, s, i);
    let n = choose|n: int| is_made_of(packages, items, s.suggestions@[i]@, n);
    assert(is_some_item(packages, found@, items[n]));
    let k = choose|k: int|
        0 <= k < found@.len() && (is_item_of(packages, #[trigger] found@[k], items[n], true)
            || is_item_of(packages, found@[k], items[n], false));
    assert(0 <= k < found@.len());
}

} // verus!
