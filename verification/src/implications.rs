//! What implications between criteria bring with them.

use vstd::prelude::*;
use crate::criteria;
use crate::criteria::{CriteriaMapper, CriteriaSet};
use crate::records::CriteriaEntry;
use crate::sorted_map::SortedMap;
use crate::text;

verus! {

/// Every criterion implies itself.
pub proof fn law_implication_is_reflexive(
    m: CriteriaMapper,
    declared: SortedMap<CriteriaEntry>,
    a: int,
)
    requires
        criteria::models_criteria(m, declared),
        0 <= a < m.names@.len(),
    ensures
        m.implied@[a].has(a),
{
    let names = criteria::criteria_order(declared);
    assert(names.len() == m.names@.len()) by {
        assert(text::texts(m.names@).len() == m.names@.len());
    }
    let path = seq![a];
    assert(criteria::is_implication_path(
        names,
        criteria::declared_implications(declared),
        path,
    ));
    assert(criteria::implies(names, criteria::declared_implications(declared), a, a));
}

/// What a criterion implies, whatever implies it implies too.
pub proof fn law_implication_is_transitive(
    m: CriteriaMapper,
    declared: SortedMap<CriteriaEntry>,
    a: int,
    b: int,
    c: int,
)
    requires
        criteria::models_criteria(m, declared),
        0 <= a < m.names@.len(),
        0 <= b < m.names@.len(),
        m.implied@[a].has(b),
        m.implied@[b].has(c),
    ensures
        m.implied@[a].has(c),
{
    let names = criteria::criteria_order(declared);
    let d = criteria::declared_implications(declared);
    assert(criteria::implies(names, d, a, b));
    assert(criteria::implies(names, d, b, c));
    let p = choose|p: Seq<int>| #[trigger]
        criteria::is_implication_path(names, d, p) && p[0] == a && p.last() == b;
    let q = choose|q: Seq<int>| #[trigger]
        criteria::is_implication_path(names, d, q) && q[0] == b && q.last() == c;
    let r = p + q.drop_first();
    assert(criteria::is_implication_path(names, d, r)) by {
        assert forall|k: int| 0 <= k < r.len() implies 0 <= #[trigger] r[k] < names.len() by {
            if k >= p.len() {
                assert(r[k] == q[k - p.len() + 1]);
            } else {
                assert(r[k] == p[k]);
            }
        }
        assert forall|k: int| 0 <= k < r.len() - 1 implies criteria::declares(
            names,
            d,
            #[trigger] r[k],
            r[k + 1],
        ) by {
            if k + 1 < p.len() {
                assert(r[k] == p[k] && r[k + 1] == p[k + 1]);
            } else if k + 1 == p.len() {
                assert(r[k] == p.last());
                assert(q[0] == b);
                assert(r[k + 1] == q[1]);
            } else {
                let x = k - p.len() + 1;
                assert(r[k] == q[x] && r[k + 1] == q[x + 1]);
            }
        }
    }
    assert(r[0] == a);
    assert(r.last() == c) by {
        if q.len() == 1 {
            assert(r =~= p);
        } else {
            assert(r.last() == q.last());
        }
    }
    assert(criteria::implies(names, d, a, c));
}

/// The criteria that a list of names stands for are closed: they hold all that
/// they imply.
pub proof fn law_criteria_are_closed(
    m: CriteriaMapper,
    declared: SortedMap<CriteriaEntry>,
    list: Seq<Seq<char>>,
    i: int,
    j: int,
)
    requires
        m.wf(),
        criteria::models_criteria(m, declared),
        criteria::criteria_of(m, list).has(i),
        m.implies_index(i, j),
    ensures
        criteria::criteria_of(m, list).has(j),
    decreases list.len(),
{
    CriteriaSet::lemma_empty();
    if list.len() > 0 {
        let rest = criteria::criteria_of(m, list.drop_last());
        match criteria::index_of(text::texts(m.names@), list.last()) {
            Some(k) => {
                criteria::lemma_index_of(text::texts(m.names@), list.last());
                CriteriaSet::lemma_union(rest, m.implied@[k]);
                if rest.has(i) {
                    law_criteria_are_closed(m, declared, list.drop_last(), i, j);
                } else {
                    law_implication_is_transitive(m, declared, k, i, j);
                }
            },
            None => {
                law_criteria_are_closed(m, declared, list.drop_last(), i, j);
            },
        }
    }
}

/// Whether the name of a criterion stands for it. Where criteria share a name, it
/// stands for the first of them.
pub open spec fn is_named(m: CriteriaMapper, i: int) -> bool {
    &&& 0 <= i < m.names@.len()
    &&& criteria::index_of(text::texts(m.names@), m.names@[i]@) == Some(i)
}

/// Whether no other criterion both implies a criterion and is implied by it.
pub open spec fn is_acyclic(m: CriteriaMapper, i: int) -> bool {
    forall|j: int|
        #![trigger m.implies_index(i, j), m.implies_index(j, i)]
        m.implies_index(i, j) && m.implies_index(j, i) ==> i == j
}

/// Whether a criterion is implied by one of a set that no other of the set
/// implies.
pub open spec fn is_led(m: CriteriaMapper, s: CriteriaSet, i: int) -> bool {
    exists|j: int| #[trigger] criteria::is_minimal(m, s, j) && s.has(j) && m.implies_index(j, i)
}

/// The criteria of a set that imply a criterion.
pub open spec fn above(m: CriteriaMapper, s: CriteriaSet, i: int) -> Set<int> {
    Set::new(|k: int| 0 <= k < 64 && s.has(k) && m.implies_index(k, i))
}

proof fn lemma_above_finite(m: CriteriaMapper, s: CriteriaSet, i: int)
    ensures
        above(m, s, i).finite(),
{
    let range = vstd::set_lib::set_int_range(0, 64);
    vstd::set_lib::lemma_int_range(0, 64);
    assert(above(m, s, i).subset_of(range));
    vstd::set_lib::lemma_set_subset_finite(range, above(m, s, i));
}

/// Above a criterion of a set, as long as no criteria there imply each other, is
/// one that no other of the set implies.
pub proof fn lemma_minimal_above(
    m: CriteriaMapper,
    declared: SortedMap<CriteriaEntry>,
    s: CriteriaSet,
    i: int,
) -> (j: int)
    requires
        m.wf(),
        criteria::models_criteria(m, declared),
        s.has(i),
        forall|k: int| #[trigger] s.has(k) ==> k < m.names@.len(),
        forall|k: int| #[trigger] s.has(k) && m.implies_index(k, i) ==> is_acyclic(m, k),
    ensures
        s.has(j),
        criteria::is_minimal(m, s, j),
        m.implies_index(j, i),
    decreases above(m, s, i).len(),
{
    law_implication_is_reflexive(m, declared, i);
    if criteria::is_minimal(m, s, i) {
        i
    } else {
        let k = choose|k: int| #[trigger] s.has(k) && k != i && m.implies_index(k, i);
        let a = above(m, s, i);
        let b = above(m, s, k);
        lemma_above_finite(m, s, i);
        lemma_above_finite(m, s, k);
        assert(b.subset_of(a)) by {
            assert forall|x: int| b.contains(x) implies a.contains(x) by {
                law_implication_is_transitive(m, declared, x, k, i);
            }
        }
        assert(m.implies_index(i, i));
        assert(a.contains(i));
        assert(!b.contains(i)) by {
            if m.implies_index(i, k) {
                assert(is_acyclic(m, i));
                assert(m.implies_index(k, i));
            }
        }
        assert(b.subset_of(a.remove(i)));
        vstd::set_lib::lemma_len_subset(b, a.remove(i));
        assert forall|x: int| #[trigger] s.has(x) && m.implies_index(x, k) implies is_acyclic(
            m,
            x,
        ) by {
            law_implication_is_transitive(m, declared, x, k, i);
        }
        let j = lemma_minimal_above(m, declared, s, k);
        law_implication_is_transitive(m, declared, j, k, i);
        j
    }
}

/// The criteria that a list of names stands for hold what each name stands for.
pub proof fn lemma_named_criteria(m: CriteriaMapper, list: Seq<Seq<char>>, k: int, j: int, i: int)
    requires
        m.wf(),
        0 <= k < list.len(),
        criteria::index_of(text::texts(m.names@), list[k]) == Some(j),
        0 <= j < m.names@.len(),
        m.implied@[j].has(i),
    ensures
        criteria::criteria_of(m, list).has(i),
    decreases list.len(),
{
    let rest = criteria::criteria_of(m, list.drop_last());
    match criteria::index_of(text::texts(m.names@), list.last()) {
        Some(x) => {
            CriteriaSet::lemma_union(rest, m.implied@[x]);
        },
        None => {},
    }
    if k < list.len() - 1 {
        lemma_named_criteria(m, list.drop_last(), k, j, i);
    }
}

/// What a criterion that is written down for a set implies, the names that are
/// written stand for.
pub proof fn lemma_written(m: CriteriaMapper, s: CriteriaSet, j: int, i: int)
    requires
        m.wf(),
        s.has(j),
        criteria::is_minimal(m, s, j),
        is_named(m, j),
        m.implies_index(j, i),
    ensures
        criteria::criteria_of(m, criteria::names_of(m, s)).has(i),
{
    let names = criteria::names_of(m, s);
    criteria::lemma_minimal(m, s);
    let l = criteria::minimal(m, s);
    let x = choose|x: int| 0 <= x < l.len() && l[x] == j;
    assert(names[x] == m.names@[j]@);
    lemma_named_criteria(m, names, x, j, i);
}

/// The names that are written for a set of criteria stand for all of them, if each
/// is implied by one that no other of the set implies, and if the names of those
/// stand for them.
pub proof fn law_names_cover_criteria(m: CriteriaMapper, s: CriteriaSet)
    requires
        m.wf(),
        forall|i: int| #[trigger] s.has(i) ==> is_led(m, s, i),
        forall|j: int| s.has(j) && #[trigger] criteria::is_minimal(m, s, j) ==> is_named(m, j),
    ensures
        criteria::criteria_of(m, criteria::names_of(m, s)).covers(s),
{
    let names = criteria::names_of(m, s);
    assert forall|i: int| #[trigger] s.has(i) implies criteria::criteria_of(m, names).has(i) by {
        let j = choose|j: int| #[trigger]
            criteria::is_minimal(m, s, j) && s.has(j) && m.implies_index(j, i);
        lemma_written(m, s, j, i);
    }
}

/// The names of the criteria that a list of names stands for stand for them.
pub proof fn lemma_list_named(
    m: CriteriaMapper,
    declared: SortedMap<CriteriaEntry>,
    list: Seq<Seq<char>>,
    i: int,
)
    requires
        m.wf(),
        criteria::models_criteria(m, declared),
        criteria::criteria_of(m, list).has(i),
    ensures
        is_named(m, i),
{
    let t = text::texts(m.names@);
    let names = criteria::criteria_order(declared);
    let d = criteria::declared_implications(declared);
    let (x, k) = lemma_named_by(m, list, i);
    assert(criteria::implies(names, d, k, i));
    let path = choose|path: Seq<int>| #[trigger]
        criteria::is_implication_path(names, d, path) && path[0] == k && path.last() == i;
    let n = path.len() - 1;
    assert(0 <= path[n] < names.len());
    if n == 0 {
        criteria::lemma_index_of(t, list[x]);
    } else {
        assert(criteria::declares(names, d, path[n - 1], path[n - 1 + 1]));
        let y = choose|y: int|
            0 <= y < d[path[n - 1]].len() && criteria::index_of(
                names,
                #[trigger] d[path[n - 1]][y],
            ) == Some(i);
        criteria::lemma_index_of(names, d[path[n - 1]][y]);
    }
    assert(t[i] == m.names@[i]@);
}

/// Writing down the names of what a list of names stands for, and reading them
/// again, gives the same criteria exactly if each of them is implied by one that
/// no other of them implies.
pub proof fn law_names_round_trip(
    m: CriteriaMapper,
    declared: SortedMap<CriteriaEntry>,
    list: Seq<Seq<char>>,
)
    requires
        m.wf(),
        criteria::models_criteria(m, declared),
    ensures
        ({
            let s = criteria::criteria_of(m, list);
            (criteria::criteria_of(m, criteria::names_of(m, s)) == s) == (forall|i: int| #[trigger]
                s.has(i) ==> is_led(m, s, i))
        }),
{
    let s = criteria::criteria_of(m, list);
    let names = criteria::names_of(m, s);
    let r = criteria::criteria_of(m, names);
    assert forall|i: int| #[trigger] r.has(i) implies s.has(i) && is_led(m, s, i) by {
        let (x, j) = lemma_named_by(m, names, i);
        criteria::lemma_minimal(m, s);
        let l = criteria::minimal(m, s);
        let k = l[x] as int;
        assert(s.has(k) && criteria::is_minimal(m, s, k));
        assert(names[x] == m.names@[k]@) by {
            lemma_list_named(m, declared, list, k);
        }
        lemma_list_named(m, declared, list, k);
        assert(j == k);
        assert(m.implies_index(j, i));
        law_criteria_are_closed(m, declared, list, j, i);
    }
    if forall|i: int| #[trigger] s.has(i) ==> is_led(m, s, i) {
        assert forall|j: int| s.has(j) && #[trigger] criteria::is_minimal(m, s, j) implies is_named(
            m,
            j,
        ) by {
            lemma_list_named(m, declared, list, j);
        }
        law_names_cover_criteria(m, s);
        assert forall|i: int| #[trigger] r.has(i) == s.has(i) by {}
        CriteriaSet::lemma_ext(r, s);
    }
    if r == s {
        assert forall|i: int| #[trigger] s.has(i) implies is_led(m, s, i) by {
            assert(r.has(i));
        }
    }
}

/// A list of names stands for known criteria only.
pub proof fn lemma_criteria_known(m: CriteriaMapper, list: Seq<Seq<char>>, i: int)
    requires
        m.wf(),
        criteria::criteria_of(m, list).has(i),
    ensures
        0 <= i < m.names@.len(),
    decreases list.len(),
{
    let (x, j) = lemma_named_by(m, list, i);
}

/// The name that a criterion comes from.
pub proof fn lemma_named_by(m: CriteriaMapper, list: Seq<Seq<char>>, i: int) -> (r: (int, int))
    requires
        m.wf(),
        criteria::criteria_of(m, list).has(i),
    ensures
        0 <= r.0 < list.len(),
        criteria::index_of(text::texts(m.names@), list[r.0]) == Some(r.1),
        0 <= r.1 < m.names@.len(),
        m.implied@[r.1].has(i),
    decreases list.len(),
{
    CriteriaSet::lemma_empty();
    if list.len() == 0 {
        (0, 0)
    } else {
        let rest = criteria::criteria_of(m, list.drop_last());
        match criteria::index_of(text::texts(m.names@), list.last()) {
            Some(k) => {
                criteria::lemma_index_of(text::texts(m.names@), list.last());
                CriteriaSet::lemma_union(rest, m.implied@[k]);
                if rest.has(i) {
                    lemma_named_by(m, list.drop_last(), i)
                } else {
                    (list.len() - 1, k)
                }
            },
            None => lemma_named_by(m, list.drop_last(), i),
        }
    }
}

} // verus!
