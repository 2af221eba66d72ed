//! Which entries of a map to keep.

use vstd::prelude::*;
use crate::order;
use crate::order::{sort, Keyed};
use crate::records::{
    AuditEntry, AuditEntryView, CratesPublisher, CratesPublisherView, UnpublishedEntry,
    UnpublishedEntryView, WildcardEntry, WildcardEntryView,
};
use crate::sorted_map;
use crate::sorted_map::SortedMap;
use crate::version::version_eq;

verus! {

/// An entry that was imported, or fetched and not imported yet.
pub trait Imported: Keyed + View {
    /// The entry once it is imported.
    spec fn imported(v: Self::V) -> Self::V;

    /// A copy of the entry as it is once it is imported.
    fn import(&self) -> (r: Self)
        ensures
            r@ == Self::imported(self@),
    ;
}

impl Imported for AuditEntry {
    open spec fn imported(v: AuditEntryView) -> AuditEntryView {
        AuditEntryView { is_fresh_import: false, ..v }
    }

    fn import(&self) -> (r: AuditEntry) {
        let mut r = self.clone();
        r.is_fresh_import = false;
        r
    }
}

impl Imported for WildcardEntry {
    open spec fn imported(v: WildcardEntryView) -> WildcardEntryView {
        WildcardEntryView { is_fresh_import: false, ..v }
    }

    fn import(&self) -> (r: WildcardEntry) {
        let mut r = self.clone();
        r.is_fresh_import = false;
        r
    }
}

impl Imported for CratesPublisher {
    open spec fn imported(v: CratesPublisherView) -> CratesPublisherView {
        CratesPublisherView { is_fresh_import: false, ..v }
    }

    fn import(&self) -> (r: CratesPublisher) {
        let mut r = self.clone();
        r.is_fresh_import = false;
        r
    }
}

impl Imported for UnpublishedEntry {
    open spec fn imported(v: UnpublishedEntryView) -> UnpublishedEntryView {
        UnpublishedEntryView { is_fresh_import: false, ..v }
    }

    fn import(&self) -> (r: UnpublishedEntry) {
        let mut r = self.clone();
        r.is_fresh_import = false;
        r
    }
}

/// The items that are flagged.
pub open spec fn kept<V>(list: Seq<V>, flags: Seq<bool>) -> Seq<V>
    decreases list.len(),
{
    if list.len() == 0 {
        Seq::empty()
    } else {
        let rest = kept(list.drop_last(), flags);
        if flags[list.len() - 1] {
            rest.push(list.last())
        } else {
            rest
        }
    }
}

/// A flagged item is kept.
pub proof fn lemma_kept_has<V>(list: Seq<V>, flags: Seq<bool>, j: int) -> (n: int)
    requires
        0 <= j < list.len(),
        flags[j],
    ensures
        0 <= n < kept(list, flags).len(),
        kept(list, flags)[n] == list[j],
    decreases list.len(),
{
    if j == list.len() - 1 {
        kept(list, flags).len() - 1
    } else {
        lemma_kept_has(list.drop_last(), flags, j)
    }
}

/// What is kept was in the list, and was flagged.
pub proof fn lemma_kept_member<V>(list: Seq<V>, flags: Seq<bool>, x: V) -> (j: int)
    requires
        kept(list, flags).contains(x),
    ensures
        0 <= j < list.len(),
        list[j] == x,
        flags[j],
    decreases list.len(),
{
    let all = kept(list, flags);
    let n = choose|n: int| 0 <= n < all.len() && all[n] == x;
    let rest = kept(list.drop_last(), flags);
    if n < rest.len() {
        assert(rest[n] == x);
        lemma_kept_member(list.drop_last(), flags, x)
    } else {
        list.len() - 1
    }
}

/// The flagged items, as they are once they are imported.
pub open spec fn kept_imports<T: Imported>(list: Seq<T::V>, flags: Seq<bool>) -> Seq<T::V> {
    kept(list, flags).map_values(|v: T::V| T::imported(v))
}

/// Whether a list holds some items in order, or is left out because there are
/// none.
pub open spec fn is_listed<T: Keyed + View>(list: Option<Vec<T>>, wanted: Seq<T::V>) -> bool {
    match list {
        Some(l) => wanted.len() > 0 && order::is_arrangement(l@, wanted),
        None => wanted.len() == 0,
    }
}

/// The flagged items of a list, imported and sorted.
fn keep_list<T: Imported>(list: &Vec<T>, flags: &Vec<bool>) -> (r: Vec<T>)
    requires
        flags@.len() == list@.len(),
    ensures
        order::is_arrangement(r@, kept_imports::<T>(sorted_map::views(list@), flags@)),
        r@.len() == kept_imports::<T>(sorted_map::views(list@), flags@).len(),
{
    let ghost l = sorted_map::views(list@);
    let mut items: Vec<T> = Vec::new();
    let mut j: usize = 0;
    assert(l.take(0) =~= Seq::<T::V>::empty());
    while j < list.len()
        invariant
            flags@.len() == list@.len(),
            l == sorted_map::views(list@),
            j <= list@.len(),
            items@.map_values(|x: T| x@) =~= kept_imports::<T>(l.take(j as int), flags@),
        decreases list@.len() - j,
    {
        proof {
            assert(l.take(j + 1).drop_last() =~= l.take(j as int));
            assert(l.take(j + 1).last() == list@[j as int]@);
        }
        let ghost before = items@;
        if flags[j] {
            let item = list[j].import();
            items.push(item);
            proof {
                assert(items@.map_values(|x: T| x@) =~= before.map_values(|x: T| x@).push(item@));
                assert(kept_imports::<T>(l.take(j + 1), flags@) =~= kept_imports::<T>(
                    l.take(j as int),
                    flags@,
                ).push(T::imported(list@[j as int]@)));
            }
        }
        j = j + 1;
    }
    proof {
        assert(l.take(j as int) =~= l);
        order::lemma_sort_arranges(items@);
        order::lemma_sort_by_key(items@);
        assert(items@.len() == items@.map_values(|x: T| x@).len());
    }
    sort(items)
}

/// Whether a map holds the flagged items of another, imported and in order.
/// Names with no items are left out.
pub open spec fn retains<T: Imported>(
    r: SortedMap<Vec<T>>,
    map: SortedMap<Vec<T>>,
    flags: spec_fn(Seq<char>) -> Seq<bool>,
) -> bool {
    forall|name: Seq<char>|
        is_listed(
            #[trigger] r.get_spec(name),
            kept_imports::<T>(sorted_map::views_at(map, name), flags(name)),
        )
}

/// Keeps the flagged items of each name, imported and in order.
pub(crate) fn retain_entries<T: Imported>(
    map: &SortedMap<Vec<T>>,
    flags: &Vec<Vec<bool>>,
    Ghost(wanted): Ghost<spec_fn(Seq<char>) -> Seq<bool>>,
) -> (r: SortedMap<Vec<T>>)
    requires
        flags@.len() == map.entries().len(),
        forall|k: int|
            0 <= k < flags@.len() ==> (#[trigger] flags@[k])@ == wanted(map.entries()[k].0@)
                && flags@[k]@.len() == map.entries()[k].1@.len(),
    ensures
        retains(r, *map, wanted),
{
    proof {
        use_type_invariant(map);
    }
    let mut r: SortedMap<Vec<T>> = SortedMap::new();
    let mut k: usize = 0;
    while k < map.len()
        invariant
            map.wf(),
            flags@.len() == map.entries().len(),
            forall|x: int|
                0 <= x < flags@.len() ==> (#[trigger] flags@[x])@ == wanted(map.entries()[x].0@)
                    && flags@[x]@.len() == map.entries()[x].1@.len(),
            k <= map.entries().len(),
            forall|x: int|
                0 <= x < k ==> is_listed(
                    r.get_spec((#[trigger] map.entries()[x]).0@),
                    kept_imports::<T>(sorted_map::views(map.entries()[x].1@), flags@[x]@),
                ),
            forall|name: Seq<char>|
                (forall|x: int| 0 <= x < k ==> (#[trigger] map.entries()[x]).0@ != name) ==> (
                #[trigger] r.get_spec(name)) is None,
        decreases map.entries().len() - k,
    {
        let ghost before = r;
        let ghost key = map.entries()[k as int].0@;
        let list = keep_list(map.value_at(k), &flags[k]);
        proof {
            assert forall|x: int| 0 <= x < k implies (#[trigger] map.entries()[x]).0@ != key by {
                map.lemma_get_at(x);
                map.lemma_get_at(k as int);
                assert(order::lex_lt(
                    crate::text::text_key(map.entries()[x].0@),
                    crate::text::text_key(map.entries()[k as int].0@),
                ));
                order::lemma_lex_refl(crate::text::text_key(key));
            }
        }
        if list.len() > 0 {
            r.insert(map.key_at(k).clone(), list);
        }
        proof {
            assert forall|x: int| 0 <= x < k + 1 implies is_listed(
                r.get_spec((#[trigger] map.entries()[x]).0@),
                kept_imports::<T>(sorted_map::views(map.entries()[x].1@), flags@[x]@),
            ) by {
                if x < k {
                    assert(map.entries()[x].0@ != key);
                    assert(r.get_spec(map.entries()[x].0@) == before.get_spec(
                        map.entries()[x].0@,
                    ));
                } else {
                    assert(before.get_spec(key) is None);
                }
            }
            assert forall|name: Seq<char>|
                (forall|x: int| 0 <= x < k + 1 ==> (#[trigger] map.entries()[x]).0@
                    != name) implies (#[trigger] r.get_spec(name)) is None by {
                assert(map.entries()[k as int].0@ != name);
                assert(before.get_spec(name) is None);
            }
        }
        k = k + 1;
    }
    proof {
        assert forall|name: Seq<char>|
            is_listed(
                #[trigger] r.get_spec(name),
                kept_imports::<T>(sorted_map::views_at(*map, name), wanted(name)),
            ) by {
            if map.get_spec(name) is Some {
                let x = map.lemma_found(name);
                assert(flags@[x]@ == wanted(map.entries()[x].0@));
            } else {
                assert forall|x: int| 0 <= x < map.entries().len() implies (
                #[trigger] map.entries()[x]).0@ != name by {
                    map.lemma_get_at(x);
                }
                assert(sorted_map::views_at(*map, name).len() == 0);
            }
        }
    }
    r
}

/// Neighbours that are equal count once.
pub open spec fn dedup<V>(s: Seq<V>) -> Seq<V>
    decreases s.len(),
{
    if s.len() <= 1 {
        s
    } else {
        let rest = dedup(s.drop_last());
        if s[s.len() - 2] == s.last() {
            rest
        } else {
            rest.push(s.last())
        }
    }
}

/// Removes entries that equal the one before.
pub fn dedup_entries(list: &Vec<UnpublishedEntry>) -> (r: Vec<UnpublishedEntry>)
    ensures
        sorted_map::views(r@) == dedup(sorted_map::views(list@)),
{
    let ghost l = sorted_map::views(list@);
    let mut r: Vec<UnpublishedEntry> = Vec::new();
    let mut j: usize = 0;
    assert(sorted_map::views(r@) =~= dedup(l.take(0)));
    while j < list.len()
        invariant
            l == sorted_map::views(list@),
            j <= list@.len(),
            sorted_map::views(r@) == dedup(l.take(j as int)),
        decreases list@.len() - j,
    {
        let ghost before = r@;
        proof {
            assert(l.take(j + 1).drop_last() =~= l.take(j as int));
            assert(l.take(j + 1).last() == list@[j as int]@);
            if j > 0 {
                assert(l.take(j + 1)[j - 1] == list@[j - 1]@);
            }
        }
        if j == 0 || !unpublished_eq(&list[j - 1], &list[j]) {
            r.push(list[j].clone());
            assert(sorted_map::views(r@) =~= sorted_map::views(before).push(list@[j as int]@));
            if j == 0 {
                assert(sorted_map::views(r@) =~= l.take(1));
            }
        }
        j = j + 1;
    }
    assert(l.take(j as int) =~= l);
    r
}

fn unpublished_eq(a: &UnpublishedEntry, b: &UnpublishedEntry) -> (r: bool)
    ensures
        r == (a@ == b@),
{
    version_eq(&a.version, &b.version) && version_eq(&a.audited_as, &b.audited_as)
        && a.still_unpublished == b.still_unpublished && a.is_fresh_import == b.is_fresh_import
}

} // verus!
