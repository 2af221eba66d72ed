//! What the criteria mean.

use vstd::prelude::*;
use crate::criteria;
use crate::criteria::{CriteriaMapper, CriteriaSet};
use crate::implications;
use crate::records::CriteriaEntry;
use crate::sorted_map::SortedMap;
use crate::text;

verus! {

/// Whether a name stands for the criterion at a position: it is the first of that
/// name.
pub open spec fn stands_for(m: CriteriaMapper, name: Seq<char>, k: int) -> bool {
    &&& 0 <= k < m.names@.len()
    &&& m.names@[k]@ == name
    &&& forall|j: int| 0 <= j < k ==> (#[trigger] m.names@[j])@ != name
}

/// Whether one criterion implies another by itself: what is safe to deploy is safe to
/// run, and declared criteria imply what their declarations name.
pub open spec fn is_direct(
    m: CriteriaMapper,
    declared: SortedMap<CriteriaEntry>,
    a: int,
    b: int,
) -> bool {
    ||| m.names@[a]@ == "safe-to-deploy"@ && a == 1 && b == 0
    ||| a >= 2 && exists|x: int|
        0 <= x < declared.entries()[a - 2].1.implies@.len() && stands_for(
            m,
            (#[trigger] declared.entries()[a - 2].1.implies@[x])@,
            b,
        )
}

proof fn lemma_stands_for(m: CriteriaMapper, name: Seq<char>, k: int)
    ensures
        stands_for(m, name, k) <==> criteria::index_of(text::texts(m.names@), name) == Some(k),
{
    let names = text::texts(m.names@);
    lemma_first(names, name);
    assert forall|j: int| 0 <= j < names.len() implies names[j] == (#[trigger] m.names@[j])@ by {}
    match criteria::index_of(names, name) {
        Some(i) => {
            assert(names[i] == m.names@[i]@);
            if stands_for(m, name, k) {
                if i < k {
                    assert(m.names@[i]@ != name);
                }
                if k < i {
                    assert(names[k] != name);
                }
            }
            if i == k {
                assert forall|j: int| 0 <= j < k implies (#[trigger] m.names@[j])@ != name by {
                    assert(names[j] != name);
                }
            }
        },
        None => {
            if stands_for(m, name, k) {
                assert(names[k] == name);
            }
        },
    }
}

proof fn lemma_first(names: Seq<Seq<char>>, name: Seq<char>)
    ensures
        match criteria::index_of(names, name) {
            Some(i) => 0 <= i < names.len() && names[i] == name && forall|j: int|
                0 <= j < i ==> #[trigger] names[j] != name,
            None => forall|j: int| 0 <= j < names.len() ==> #[trigger] names[j] != name,
        },
    decreases names.len(),
{
    if names.len() > 0 && names[0] != name {
        let t = names.drop_first();
        lemma_first(t, name);
        match criteria::index_of(t, name) {
            Some(i) => {
                assert(names[i + 1] == t[i]);
                assert forall|j: int| 0 <= j < i + 1 implies #[trigger] names[j] != name by {
                    if j > 0 {
                        assert(names[j] == t[j - 1]);
                    }
                }
            },
            None => {
                assert forall|j: int| 0 <= j < names.len() implies #[trigger] names[j] != name by {
                    if j > 0 {
                        assert(names[j] == t[j - 1]);
                    }
                }
            },
        }
    }
}

/// The built-in criteria come first, and after them those that are declared, in their
/// order.
pub proof fn law_criteria_are_numbered(declared: SortedMap<CriteriaEntry>, m: CriteriaMapper, k: int)
    requires
        call_ensures(CriteriaMapper::new, (&declared,), m),
    ensures
        m.names@.len() == declared.entries().len() + 2,
        m.names@[0]@ == "safe-to-run"@,
        m.names@[1]@ == "safe-to-deploy"@,
        0 <= k < declared.entries().len() ==> m.names@[k + 2]@ == declared.entries()[k].0@,
{
    let names = criteria::criteria_order(declared);
    let t = text::texts(m.names@);
    assert(t.len() == m.names@.len());
    assert(declared.keys().len() == declared.entries().len());
    assert(t[0] == m.names@[0]@);
    assert(t[1] == m.names@[1]@);
    assert(names[0] == criteria::safe_to_run());
    assert(names[1] == criteria::safe_to_deploy());
    if 0 <= k < declared.entries().len() {
        assert(t[k + 2] == m.names@[k + 2]@);
        assert(names[k + 2] == declared.keys()[k]);
    }
}

proof fn lemma_declares(declared: SortedMap<CriteriaEntry>, m: CriteriaMapper, a: int, b: int)
    requires
        call_ensures(CriteriaMapper::new, (&declared,), m),
        0 <= a < m.names@.len(),
    ensures
        criteria::declares(
            criteria::criteria_order(declared),
            criteria::declared_implications(declared),
            a,
            b,
        ) <==> is_direct(m, declared, a, b),
{
    let names = criteria::criteria_order(declared);
    let d = criteria::declared_implications(declared);
    law_criteria_are_numbered(declared, m, a - 2);
    assert(text::texts(m.names@) == names);
    if a == 0 {
        assert(d[0].len() == 0);
    } else if a == 1 {
        assert(d[1] == seq![criteria::safe_to_run()]);
        assert(stands_for(m, criteria::safe_to_run(), 0));
        lemma_stands_for(m, criteria::safe_to_run(), 0);
        assert(d[1][0] == criteria::safe_to_run());
        if criteria::declares(names, d, a, b) {
            let k = choose|k: int|
                0 <= k < d[a].len() && criteria::index_of(names, #[trigger] d[a][k]) == Some(b);
            assert(k == 0);
        }
    } else {
        let list = declared.entries()[a - 2].1.implies@;
        assert(d[a] == text::texts(list));
        assert forall|x: int| 0 <= x < list.len() implies d[a][x] == (#[trigger] list[x])@ by {}
        if criteria::declares(names, d, a, b) {
            let k = choose|k: int|
                0 <= k < d[a].len() && criteria::index_of(names, #[trigger] d[a][k]) == Some(b);
            lemma_stands_for(m, list[k]@, b);
            assert(stands_for(m, list[k]@, b));
        }
        if is_direct(m, declared, a, b) {
            let x = choose|x: int|
                0 <= x < declared.entries()[a - 2].1.implies@.len() && stands_for(
                    m,
                    (#[trigger] declared.entries()[a - 2].1.implies@[x])@,
                    b,
                );
            lemma_stands_for(m, list[x]@, b);
            assert(criteria::index_of(names, d[a][x]) == Some(b));
        }
    }
}

/// A criterion implies itself, what it implies by itself, and what these imply.
pub proof fn law_declared_implications_hold(
    declared: SortedMap<CriteriaEntry>,
    m: CriteriaMapper,
    a: int,
    b: int,
    c: int,
)
    requires
        call_ensures(CriteriaMapper::new, (&declared,), m),
        0 <= a < m.names@.len(),
        0 <= b < m.names@.len(),
        0 <= c < m.names@.len(),
    ensures
        m.implied@[a].has(a),
        m.implied@[a].has(b) && is_direct(m, declared, b, c) ==> m.implied@[a].has(c),
{
    let names = criteria::criteria_order(declared);
    let d = criteria::declared_implications(declared);
    implications::law_implication_is_reflexive(m, declared, a);
    if m.implied@[a].has(b) && is_direct(m, declared, b, c) {
        lemma_declares(declared, m, b, c);
        assert(text::texts(m.names@).len() == m.names@.len());
        let path = seq![b, c];
        assert(criteria::is_implication_path(names, d, path)) by {
            assert(path[0] == b && path[1] == c);
        }
        assert(criteria::implies(names, d, b, c));
        implications::law_implication_is_transitive(m, declared, a, b, c);
    }
}

/// A criterion implies nothing else: whatever holds between each criterion and
/// itself, and carries over to what criteria imply by themselves, holds between
/// each criterion and all that it implies.
pub proof fn law_implications_are_declared(
    declared: SortedMap<CriteriaEntry>,
    m: CriteriaMapper,
    a: int,
    b: int,
    rel: spec_fn(int) -> bool,
)
    requires
        call_ensures(CriteriaMapper::new, (&declared,), m),
        0 <= a < m.names@.len(),
        m.implied@[a].has(b),
        rel(a),
        forall|x: int, y: int| #[trigger]
            is_direct(m, declared, x, y) && rel(x) && 0 <= x < m.names@.len() && 0 <= y
                < m.names@.len() ==> rel(y),
    ensures
        rel(b),
{
    let names = criteria::criteria_order(declared);
    let d = criteria::declared_implications(declared);
    assert(criteria::implies(names, d, a, b));
    let path = choose|path: Seq<int>| #[trigger]
        criteria::is_implication_path(names, d, path) && path[0] == a && path.last() == b;
    lemma_along(declared, m, rel, path, path.len() - 1);
}

proof fn lemma_along(
    declared: SortedMap<CriteriaEntry>,
    m: CriteriaMapper,
    rel: spec_fn(int) -> bool,
    path: Seq<int>,
    n: int,
)
    requires
        call_ensures(CriteriaMapper::new, (&declared,), m),
        criteria::is_implication_path(
            criteria::criteria_order(declared),
            criteria::declared_implications(declared),
            path,
        ),
        0 <= n < path.len(),
        rel(path[0]),
        forall|x: int, y: int| #[trigger]
            is_direct(m, declared, x, y) && rel(x) && 0 <= x < m.names@.len() && 0 <= y
                < m.names@.len() ==> rel(y),
    ensures
        rel(path[n]),
    decreases n,
{
    if n > 0 {
        lemma_along(declared, m, rel, path, n - 1);
        let names = criteria::criteria_order(declared);
        assert(text::texts(m.names@).len() == m.names@.len());
        assert(0 <= path[n - 1] < names.len());
        assert(0 <= path[n] < names.len());
        assert(criteria::declares(
            names,
            criteria::declared_implications(declared),
            path[n - 1],
            path[n - 1 + 1],
        ));
        lemma_declares(declared, m, path[n - 1], path[n]);
        assert(is_direct(m, declared, path[n - 1], path[n]));
    }
}

/// A list of names stands for exactly the criteria that the names stand for, and for
/// all that these imply. Names that are not known stand for nothing.
pub proof fn law_lists_stand_for_criteria(m: CriteriaMapper, list: Seq<Seq<char>>, i: int)
    requires
        m.wf(),
    ensures
        criteria::criteria_of(m, list).has(i) <==> exists|x: int, k: int|
            0 <= x < list.len() && #[trigger] stands_for(m, list[x], k) && m.implied@[k].has(i),
{
    if criteria::criteria_of(m, list).has(i) {
        let (x, k) = implications::lemma_named_by(m, list, i);
        lemma_stands_for(m, list[x], k);
        assert(stands_for(m, list[x], k));
    }
    if exists|x: int, k: int|
        0 <= x < list.len() && #[trigger] stands_for(m, list[x], k) && m.implied@[k].has(i) {
        let (x, k) = choose|x: int, k: int|
            0 <= x < list.len() && #[trigger] stands_for(m, list[x], k) && m.implied@[k].has(i);
        lemma_stands_for(m, list[x], k);
        implications::lemma_named_criteria(m, list, x, k, i);
    }
}

/// The names that are written for criteria are those of the criteria that no other of
/// them implies, in the order of the criteria.
pub proof fn law_written_names_are_minimal(m: CriteriaMapper, s: CriteriaSet)
    requires
        m.wf(),
        forall|i: int| #[trigger] s.has(i) ==> i < m.names@.len(),
    ensures
        exists|l: Seq<int>|
            {
                &&& #[trigger] l.len() == criteria::names_of(m, s).len()
                &&& forall|x: int|
                    0 <= x < l.len() ==> 0 <= #[trigger] l[x] < m.names@.len()
                        && criteria::names_of(m, s)[x] == m.names@[l[x]]@
                &&& forall|x: int, y: int| 0 <= x < y < l.len() ==> #[trigger] l[x] < #[trigger] l[y]
                &&& forall|i: int|
                    l.contains(i) <==> #[trigger] s.has(i) && forall|j: int| #[trigger]
                        s.has(j) && m.implies_index(j, i) ==> j == i
            },
{
    let names = criteria::names_of(m, s);
    let minimal = criteria::minimal(m, s);
    criteria::lemma_minimal(m, s);
    let l = minimal.map_values(|x: usize| x as int);
    assert forall|x: int| 0 <= x < l.len() implies 0 <= #[trigger] l[x] < m.names@.len() && names[x]
        == m.names@[l[x]]@ by {
        assert(s.has(minimal[x] as int));
    }
    assert forall|x: int, y: int| 0 <= x < y < l.len() implies #[trigger] l[x] < #[trigger] l[y] by {
        assert(minimal[x] < minimal[y]);
    }
    assert forall|i: int| l.contains(i) <==> #[trigger] s.has(i) && forall|j: int| #[trigger]
        s.has(j) && m.implies_index(j, i) ==> j == i by {
        if l.contains(i) {
            let x = choose|x: int| 0 <= x < l.len() && l[x] == i;
            assert(s.has(minimal[x] as int) && criteria::is_minimal(m, s, minimal[x] as int));
        }
        if s.has(i) && forall|j: int| #[trigger] s.has(j) && m.implies_index(j, i) ==> j == i {
            assert(criteria::is_minimal(m, s, i));
            let x = choose|x: int| 0 <= x < minimal.len() && minimal[x] == i;
            assert(l[x] == i);
        }
    }
    assert(l.len() == names.len());
}

} // verus!
