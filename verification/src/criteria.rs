//! Sets of audit criteria.

use vstd::prelude::*;
use crate::records::CriteriaEntry;
use crate::sorted_map::SortedMap;
use crate::text;
use crate::text::text_eq;

verus! {

/// The largest number of criteria that a [`CriteriaMapper`] can hold.
pub const MAX_CRITERIA: usize = 64;

/// A set of criteria, each given by its index in a [`CriteriaMapper`].
#[derive(Debug, Clone, Copy, PartialEq, Eq)]
pub struct CriteriaSet {
    pub bits: u64,
}

/// The bit of a criterion.
pub open spec fn bit(i: int) -> u64 {
    1u64 << (i as u64)
}

proof fn lemma_same_bits(a: u64, b: u64, k: u64)
    requires
        k <= 64,
        forall|i: u64| k <= i < 64 ==> #[trigger] ((a >> i) & 1) == ((b >> i) & 1),
    ensures
        k < 64 ==> (a >> k) == (b >> k),
    decreases 64 - k,
{
    if k < 63 {
        let m = (k + 1) as u64;
        lemma_same_bits(a, b, m);
        assert(((a >> k) & 1) == ((b >> k) & 1));
        assert((a >> k) == (b >> k)) by (bit_vector)
            requires
                k < 63,
                m == k + 1,
                ((a >> k) & 1) == ((b >> k) & 1),
                (a >> m) == (b >> m),
        ;
    } else if k == 63 {
        assert(((a >> k) & 1) == ((b >> k) & 1));
        assert((a >> k) == (b >> k)) by (bit_vector)
            requires
                k == 63,
                ((a >> k) & 1) == ((b >> k) & 1),
        ;
    }
}

impl CriteriaSet {
    /// Whether the set holds the criterion `i`.
    pub open spec fn has(self, i: int) -> bool {
        0 <= i < 64 && ((self.bits >> (i as u64)) & 1) == 1
    }

    /// The union of two sets.
    pub open spec fn union(self, other: CriteriaSet) -> CriteriaSet {
        CriteriaSet { bits: self.bits | other.bits }
    }

    /// The intersection of two sets.
    pub open spec fn intersection(self, other: CriteriaSet) -> CriteriaSet {
        CriteriaSet { bits: self.bits & other.bits }
    }

    /// The criteria of `self` that `other` does not hold.
    pub open spec fn minus(self, other: CriteriaSet) -> CriteriaSet {
        CriteriaSet { bits: self.bits & !other.bits }
    }

    /// The set with one more criterion.
    pub open spec fn with(self, i: int) -> CriteriaSet {
        CriteriaSet { bits: self.bits | bit(i) }
    }

    /// Whether every criterion of `other` is in `self`.
    pub open spec fn covers(self, other: CriteriaSet) -> bool {
        forall|i: int| #[trigger] other.has(i) ==> self.has(i)
    }

    /// Sets with the same criteria are the same set.
    pub proof fn lemma_ext(a: CriteriaSet, b: CriteriaSet)
        requires
            forall|i: int| #[trigger] a.has(i) == b.has(i),
        ensures
            a == b,
    {
        let x = a.bits;
        let y = b.bits;
        assert forall|i: u64| 0 <= i < 64 implies #[trigger] ((x >> i) & 1) == ((y >> i) & 1) by {
            assert(a.has(i as int) == b.has(i as int));
            assert(((x >> i) & 1) == 0 || ((x >> i) & 1) == 1) by (bit_vector);
            assert(((y >> i) & 1) == 0 || ((y >> i) & 1) == 1) by (bit_vector);
        }
        lemma_same_bits(x, y, 0);
        assert(x == y) by (bit_vector)
            requires
                (x >> 0u64) == (y >> 0u64),
        ;
    }

    /// The criteria of a union.
    pub proof fn lemma_union(a: CriteriaSet, b: CriteriaSet)
        ensures
            forall|i: int| #[trigger] a.union(b).has(i) == (a.has(i) || b.has(i)),
    {
        assert forall|i: int| #[trigger] a.union(b).has(i) == (a.has(i) || b.has(i)) by {
            if 0 <= i < 64 {
                let x = a.bits;
                let y = b.bits;
                let k = i as u64;
                assert((((x | y) >> k) & 1 == 1) == ((x >> k) & 1 == 1 || (y >> k) & 1 == 1))
                    by (bit_vector);
            }
        }
    }

    /// The criteria of an intersection.
    pub proof fn lemma_intersection(a: CriteriaSet, b: CriteriaSet)
        ensures
            forall|i: int| #[trigger] a.intersection(b).has(i) == (a.has(i) && b.has(i)),
    {
        assert forall|i: int| #[trigger] a.intersection(b).has(i) == (a.has(i) && b.has(i)) by {
            if 0 <= i < 64 {
                let x = a.bits;
                let y = b.bits;
                let k = i as u64;
                assert((((x & y) >> k) & 1 == 1) == ((x >> k) & 1 == 1 && (y >> k) & 1 == 1))
                    by (bit_vector);
            }
        }
    }

    /// The criteria of a difference.
    pub proof fn lemma_minus(a: CriteriaSet, b: CriteriaSet)
        ensures
            forall|i: int| #[trigger] a.minus(b).has(i) == (a.has(i) && !b.has(i)),
    {
        assert forall|i: int| #[trigger] a.minus(b).has(i) == (a.has(i) && !b.has(i)) by {
            if 0 <= i < 64 {
                let x = a.bits;
                let y = b.bits;
                let k = i as u64;
                assert((((x & !y) >> k) & 1 == 1) == ((x >> k) & 1 == 1 && !((y >> k) & 1 == 1)))
                    by (bit_vector)
                    requires
                        k < 64,
                ;
            }
        }
    }

    /// The criteria of a set with one more criterion.
    pub proof fn lemma_with(a: CriteriaSet, j: int)
        requires
            0 <= j < 64,
        ensures
            forall|i: int| #[trigger] a.with(j).has(i) == (a.has(i) || i == j),
    {
        assert forall|i: int| #[trigger] a.with(j).has(i) == (a.has(i) || i == j) by {
            if 0 <= i < 64 {
                let x = a.bits;
                let k = i as u64;
                let m = j as u64;
                assert((((x | (1u64 << m)) >> k) & 1 == 1) == ((x >> k) & 1 == 1 || k == m))
                    by (bit_vector)
                    requires
                        k < 64,
                        m < 64,
                ;
            }
        }
    }

    /// The empty set has no criteria.
    pub proof fn lemma_empty()
        ensures
            forall|i: int| !(#[trigger] (CriteriaSet { bits: 0 }).has(i)),
    {
        assert forall|i: int| !(#[trigger] (CriteriaSet { bits: 0 }).has(i)) by {
            if 0 <= i < 64 {
                let k = i as u64;
                assert((0u64 >> k) & 1 == 0) by (bit_vector);
            }
        }
    }

    /// The set without criteria.
    pub fn none() -> (r: CriteriaSet)
        ensures
            r == (CriteriaSet { bits: 0 }),
            forall|i: int| !(#[trigger] r.has(i)),
    {
        proof {
            CriteriaSet::lemma_empty();
        }
        CriteriaSet { bits: 0 }
    }

    /// The set of the first `count` criteria.
    pub fn all(count: usize) -> (r: CriteriaSet)
        requires
            count <= MAX_CRITERIA,
        ensures
            r == all_set(count as int),
            forall|i: int| #[trigger] r.has(i) == (0 <= i < count),
    {
        let mut r: CriteriaSet = CriteriaSet::none();
        let mut n: usize = 0;
        while n < count
            invariant
                n <= count <= MAX_CRITERIA,
                r == all_set(n as int),
                forall|i: int| #[trigger] r.has(i) == (0 <= i < n),
            decreases count - n,
        {
            r.set_criteria(n);
            n = n + 1;
        }
        r
    }

    /// Adds a criterion.
    pub fn set_criteria(&mut self, idx: usize)
        requires
            idx < MAX_CRITERIA,
        ensures
            *final(self) == old(self).with(idx as int),
            forall|i: int| #[trigger] final(self).has(i) == (old(self).has(i) || i == idx),
    {
        proof {
            CriteriaSet::lemma_with(*self, idx as int);
        }
        self.bits = self.bits | (1u64 << (idx as u64));
        assert(*self == old(self).with(idx as int));
    }

    /// Whether the set holds a criterion.
    pub fn has_criteria(&self, idx: usize) -> (r: bool)
        ensures
            r == self.has(idx as int),
    {
        idx < MAX_CRITERIA && ((self.bits >> (idx as u64)) & 1) == 1
    }

    /// Adds the criteria of another set.
    pub fn unioned_with(&mut self, other: &CriteriaSet)
        ensures
            *final(self) == old(self).union(*other),
            forall|i: int| #[trigger] final(self).has(i) == (old(self).has(i) || other.has(i)),
    {
        proof {
            CriteriaSet::lemma_union(*self, *other);
        }
        self.bits = self.bits | other.bits;
        assert(*self == old(self).union(*other));
    }

    /// Removes the criteria that another set does not hold.
    pub fn intersected_with(&mut self, other: &CriteriaSet)
        ensures
            *final(self) == old(self).intersection(*other),
            forall|i: int| #[trigger] final(self).has(i) == (old(self).has(i) && other.has(i)),
    {
        proof {
            CriteriaSet::lemma_intersection(*self, *other);
        }
        self.bits = self.bits & other.bits;
        assert(*self == old(self).intersection(*other));
    }

    /// Removes the criteria of another set.
    pub fn clear_criteria(&mut self, other: &CriteriaSet)
        ensures
            *final(self) == old(self).minus(*other),
            forall|i: int| #[trigger] final(self).has(i) == (old(self).has(i) && !other.has(i)),
    {
        proof {
            CriteriaSet::lemma_minus(*self, *other);
        }
        self.bits = self.bits & !other.bits;
        assert(*self == old(self).minus(*other));
    }

    /// Whether this set holds every criterion of another set.
    pub fn contains(&self, other: &CriteriaSet) -> (r: bool)
        ensures
            r == self.covers(*other),
    {
        proof {
            CriteriaSet::lemma_intersection(*self, *other);
            let both = self.intersection(*other);
            if self.covers(*other) {
                assert forall|i: int| #[trigger] both.has(i) == other.has(i) by {}
                CriteriaSet::lemma_ext(both, *other);
            }
            if both == *other {
                assert forall|i: int| #[trigger] other.has(i) implies self.has(i) by {
                    assert(both.has(i));
                }
            }
        }
        (self.bits & other.bits) == other.bits
    }

    /// Whether the set has no criteria.
    pub fn is_empty(&self) -> (r: bool)
        ensures
            r == (forall|i: int| !(#[trigger] self.has(i))),
            r == (self.bits == 0),
    {
        proof {
            CriteriaSet::lemma_empty();
            let none = CriteriaSet { bits: 0 };
            if forall|i: int| !(#[trigger] self.has(i)) {
                assert forall|i: int| #[trigger] self.has(i) == none.has(i) by {}
                CriteriaSet::lemma_ext(*self, none);
            } else if self.bits == 0 {
                let i = choose|i: int| #[trigger] self.has(i);
                assert(!none.has(i));
            }
        }
        self.bits == 0
    }

    /// The criteria of the set, in increasing order.
    pub fn indices(&self) -> (r: Vec<usize>)
        ensures
            r@ == indices_below(*self, 64),
    {
        let mut r: Vec<usize> = Vec::new();
        let mut i: usize = 0;
        while i < MAX_CRITERIA
            invariant
                i <= MAX_CRITERIA,
                r@ == indices_below(*self, i as nat),
            decreases MAX_CRITERIA - i,
        {
            if self.has_criteria(i) {
                r.push(i);
            }
            i = i + 1;
        }
        r
    }
}

/// The set of the criteria below `n`.
pub open spec fn all_set(n: int) -> CriteriaSet
    decreases n,
{
    if n <= 0 {
        CriteriaSet { bits: 0 }
    } else {
        all_set(n - 1).with(n - 1)
    }
}

/// The criteria of `s` below `n`, in increasing order.
pub open spec fn indices_below(s: CriteriaSet, n: nat) -> Seq<usize>
    decreases n,
{
    if n == 0 {
        Seq::empty()
    } else if s.has(n - 1) {
        indices_below(s, (n - 1) as nat).push((n - 1) as usize)
    } else {
        indices_below(s, (n - 1) as nat)
    }
}

/// The criteria of `s`, in increasing order.
pub open spec fn indices(s: CriteriaSet) -> Seq<usize> {
    indices_below(s, 64)
}

/// The indices of a set are its criteria, each once and in increasing order.
pub proof fn lemma_indices_below(s: CriteriaSet, n: nat)
    requires
        n <= 64,
    ensures
        forall|i: usize| #[trigger] indices_below(s, n).contains(i) == (i < n && s.has(i as int)),
        forall|a: int, b: int|
            0 <= a < b < indices_below(s, n).len() ==> (#[trigger] indices_below(s, n)[a]) < (
            #[trigger] indices_below(s, n)[b]),
    decreases n,
{
    if n > 0 {
        let m = (n - 1) as nat;
        lemma_indices_below(s, m);
        let low = indices_below(s, m);
        let all = indices_below(s, n);
        if s.has(n - 1) {
            assert(all == low.push((n - 1) as usize));
            assert forall|i: usize| #[trigger] all.contains(i) == (i < n && s.has(i as int)) by {
                if all.contains(i) {
                    let k = choose|k: int| 0 <= k < all.len() && all[k] == i;
                    if k < low.len() {
                        assert(low[k] == i);
                        assert(low.contains(i));
                    }
                }
                if i < n && s.has(i as int) {
                    if i < m {
                        assert(low.contains(i));
                        let k = choose|k: int| 0 <= k < low.len() && low[k] == i;
                        assert(all[k] == i);
                    } else {
                        assert(all[low.len() as int] == i);
                    }
                }
            }
            assert forall|a: int, b: int| 0 <= a < b < all.len() implies (#[trigger] all[a]) < (
            #[trigger] all[b]) by {
                assert(low[a] == all[a]);
                assert(low.contains(low[a]));
                if b < low.len() {
                    assert(low[b] == all[b]);
                }
            }
        } else {
            assert forall|i: usize| #[trigger] all.contains(i) == (i < n && s.has(i as int)) by {
                assert(low.contains(i) == (i < m && s.has(i as int)));
            }
        }
    }
}

/// The number of criteria of `s` below `n`.
pub open spec fn count(s: CriteriaSet, n: nat) -> nat
    decreases n,
{
    if n == 0 {
        0
    } else {
        count(s, (n - 1) as nat) + (if s.has(n - 1) {
            1nat
        } else {
            0nat
        })
    }
}

/// A larger set has at least as many criteria, and more if it has one that the
/// smaller set lacks.
pub proof fn lemma_count(a: CriteriaSet, b: CriteriaSet, n: nat)
    requires
        b.covers(a),
    ensures
        count(a, n) <= count(b, n) <= n,
        (exists|i: int| 0 <= i < n && #[trigger] b.has(i) && !a.has(i)) ==> count(a, n) < count(b, n),
    decreases n,
{
    if n > 0 {
        let m = (n - 1) as nat;
        lemma_count(a, b, m);
        if exists|i: int| 0 <= i < n && #[trigger] b.has(i) && !a.has(i) {
            let i = choose|i: int| 0 <= i < n && #[trigger] b.has(i) && !a.has(i);
            if i < m {
                assert(b.has(i) && !a.has(i));
            }
        }
    }
}

/// The number of criteria that the sets still lack, over all of them.
pub open spec fn missing(sets: Seq<CriteriaSet>) -> nat
    decreases sets.len(),
{
    if sets.len() == 0 {
        0
    } else {
        missing(sets.drop_last()) + (64 - count(sets.last(), 64)) as nat
    }
}

/// Enlarging one of the sets lowers the number of missing criteria.
pub proof fn lemma_missing_update(sets: Seq<CriteriaSet>, k: int, s: CriteriaSet)
    requires
        0 <= k < sets.len(),
        s.covers(sets[k]),
    ensures
        missing(sets.update(k, s)) <= missing(sets),
        !sets[k].covers(s) ==> missing(sets.update(k, s)) < missing(sets),
    decreases sets.len(),
{
    let u = sets.update(k, s);
    if k == sets.len() - 1 {
        assert(u.drop_last() =~= sets.drop_last());
        lemma_count(sets[k], s, 64);
        if !sets[k].covers(s) {
            let i = choose|i: int| #[trigger] s.has(i) && !sets[k].has(i);
            assert(0 <= i < 64 && s.has(i) && !sets[k].has(i));
        }
    } else {
        assert(u.drop_last() =~= sets.drop_last().update(k, s));
        assert(sets.drop_last()[k] == sets[k]);
        lemma_missing_update(sets.drop_last(), k, s);
    }
}

/// The criterion that every dependency needs unless a policy says otherwise.
pub open spec fn safe_to_deploy() -> Seq<char> {
    "safe-to-deploy"@
}

/// The criterion that development dependencies need unless a policy says
/// otherwise.
pub open spec fn safe_to_run() -> Seq<char> {
    "safe-to-run"@
}

/// The first position of `name` in `names`.
pub open spec fn index_of(names: Seq<Seq<char>>, name: Seq<char>) -> Option<int>
    decreases names.len(),
{
    if names.len() == 0 {
        None
    } else if names[0] == name {
        Some(0int)
    } else {
        match index_of(names.drop_first(), name) {
            Some(i) => Some(i + 1),
            None => None,
        }
    }
}

/// The index of a name is in range, and is that of the name.
pub proof fn lemma_index_of(names: Seq<Seq<char>>, name: Seq<char>)
    ensures
        match index_of(names, name) {
            Some(i) => 0 <= i < names.len() && names[i] == name,
            None => !names.contains(name),
        },
    decreases names.len(),
{
    if names.len() > 0 && names[0] != name {
        let t = names.drop_first();
        lemma_index_of(t, name);
        if index_of(t, name) is None && names.contains(name) {
            let k = choose|k: int| 0 <= k < names.len() && names[k] == name;
            assert(t[k - 1] == name);
        }
    }
}

/// The index of a name is where it occurs first.
pub proof fn lemma_index_of_hit(names: Seq<Seq<char>>, i: int)
    requires
        0 <= i < names.len(),
        forall|k: int| 0 <= k < i ==> #[trigger] names[k] != names[i],
    ensures
        index_of(names, names[i]) == Some(i),
    decreases i,
{
    if i > 0 {
        let t = names.drop_first();
        assert(names[0] != names[i]);
        assert forall|k: int| 0 <= k < i - 1 implies #[trigger] t[k] != t[i - 1] by {
            assert(names[k + 1] != names[i]);
        }
        lemma_index_of_hit(t, i - 1);
    }
}

/// What each criterion is declared to imply, in the order of the indices: the
/// two built-in criteria come first.
pub open spec fn declared_implications(criteria: SortedMap<CriteriaEntry>) -> Seq<Seq<Seq<char>>> {
    seq![Seq::<Seq<char>>::empty(), seq![safe_to_run()]] + criteria.entries().map_values(
        |e: (String, CriteriaEntry)| text::texts(e.1.implies@),
    )
}

/// The names of the criteria, in the order of their indices.
pub open spec fn criteria_order(criteria: SortedMap<CriteriaEntry>) -> Seq<Seq<char>> {
    seq![safe_to_run(), safe_to_deploy()] + criteria.keys()
}

/// Whether the declaration of the criterion `a` names the criterion `b`.
pub open spec fn declares(
    names: Seq<Seq<char>>,
    declared: Seq<Seq<Seq<char>>>,
    a: int,
    b: int,
) -> bool {
    exists|k: int|
        0 <= k < declared[a].len() && index_of(names, #[trigger] declared[a][k]) == Some(b)
}

/// Whether each criterion on `path` declares the next one.
pub open spec fn is_implication_path(
    names: Seq<Seq<char>>,
    declared: Seq<Seq<Seq<char>>>,
    path: Seq<int>,
) -> bool {
    &&& path.len() > 0
    &&& forall|k: int| 0 <= k < path.len() ==> 0 <= #[trigger] path[k] < names.len()
    &&& forall|k: int|
        0 <= k < path.len() - 1 ==> declares(names, declared, #[trigger] path[k], path[k + 1])
}

/// Whether `a` implies `b`, directly or through other criteria. Every criterion
/// implies itself.
pub open spec fn implies(
    names: Seq<Seq<char>>,
    declared: Seq<Seq<Seq<char>>>,
    a: int,
    b: int,
) -> bool {
    exists|path: Seq<int>| #[trigger]
        is_implication_path(names, declared, path) && path[0] == a && path.last() == b
}

/// The names of all criteria, and what each of them implies.
#[derive(Debug)]
pub struct CriteriaMapper {
    pub names: Vec<String>,
    pub implied: Vec<CriteriaSet>,
}

/// Whether a mapper holds the criteria that are declared, and all that they
/// imply.
pub open spec fn models_criteria(m: CriteriaMapper, criteria: SortedMap<CriteriaEntry>) -> bool {
    &&& text::texts(m.names@) == criteria_order(criteria)
    &&& forall|a: int, b: int|
        0 <= a < m.names@.len() ==> #[trigger] m.implied@[a].has(b) == implies(
            criteria_order(criteria),
            declared_implications(criteria),
            a,
            b,
        )
}

/// The criteria that a list of names stands for, with all that they imply.
/// Names that are not known stand for nothing.
pub open spec fn criteria_of(m: CriteriaMapper, list: Seq<Seq<char>>) -> CriteriaSet
    decreases list.len(),
{
    if list.len() == 0 {
        CriteriaSet { bits: 0 }
    } else {
        let rest = criteria_of(m, list.drop_last());
        match index_of(text::texts(m.names@), list.last()) {
            Some(i) => rest.union(m.implied@[i]),
            None => rest,
        }
    }
}

/// Whether the criterion `i` of `s` is implied by no other criterion of `s`.
pub open spec fn is_minimal(m: CriteriaMapper, s: CriteriaSet, i: int) -> bool {
    forall|j: int| #[trigger] s.has(j) && j != i ==> !m.implies_index(j, i)
}

/// The criteria of `s` below `n` that no other criterion of `s` implies.
pub open spec fn minimal_below(m: CriteriaMapper, s: CriteriaSet, n: nat) -> Seq<usize>
    decreases n,
{
    if n == 0 {
        Seq::empty()
    } else if s.has(n - 1) && is_minimal(m, s, n - 1) {
        minimal_below(m, s, (n - 1) as nat).push((n - 1) as usize)
    } else {
        minimal_below(m, s, (n - 1) as nat)
    }
}

/// The criteria of `s` that no other criterion of `s` implies.
pub open spec fn minimal(m: CriteriaMapper, s: CriteriaSet) -> Seq<usize> {
    minimal_below(m, s, 64)
}

/// The criteria of a set that no other implies, each once.
pub proof fn lemma_minimal(m: CriteriaMapper, s: CriteriaSet)
    ensures
        forall|i: int|
            #![trigger is_minimal(m, s, i)]
            (s.has(i) && is_minimal(m, s, i)) == (exists|x: int|
                0 <= x < minimal(m, s).len() && minimal(m, s)[x] == i),
        forall|x: int|
            0 <= x < minimal(m, s).len() ==> s.has((#[trigger] minimal(m, s)[x]) as int)
                && is_minimal(m, s, minimal(m, s)[x] as int) && minimal(m, s)[x] < 64,
        forall|a: int, b: int|
            0 <= a < b < minimal(m, s).len() ==> (#[trigger] minimal(m, s)[a]) < (
            #[trigger] minimal(m, s)[b]),
{
    lemma_minimal_below(m, s, 64);
    let l = minimal(m, s);
    assert(l == minimal_below(m, s, 64));
    assert forall|i: int|
        #![trigger is_minimal(m, s, i)]
        (s.has(i) && is_minimal(m, s, i)) == (exists|x: int| 0 <= x < l.len() && l[x] == i) by {
        if s.has(i) && is_minimal(m, s, i) {
            assert(i < 64);
            assert(exists|x: int| 0 <= x < l.len() && l[x] == i);
        }
        if exists|x: int| 0 <= x < l.len() && l[x] == i {
            let x = choose|x: int| 0 <= x < l.len() && l[x] == i;
            assert(s.has(l[x] as int));
        }
    }
}

proof fn lemma_minimal_below(m: CriteriaMapper, s: CriteriaSet, n: nat)
    requires
        n <= 64,
    ensures
        forall|i: int|
            #![trigger is_minimal(m, s, i)]
            (i < n && s.has(i) && is_minimal(m, s, i)) == (exists|x: int|
                0 <= x < minimal_below(m, s, n).len() && minimal_below(m, s, n)[x] == i),
        forall|x: int|
            0 <= x < minimal_below(m, s, n).len() ==> s.has(
                (#[trigger] minimal_below(m, s, n)[x]) as int,
            ) && is_minimal(m, s, minimal_below(m, s, n)[x] as int) && minimal_below(m, s, n)[x]
                < n,
        forall|a: int, b: int|
            0 <= a < b < minimal_below(m, s, n).len() ==> (#[trigger] minimal_below(m, s, n)[a]) < (
            #[trigger] minimal_below(m, s, n)[b]),
    decreases n,
{
    if n > 0 {
        let k = (n - 1) as nat;
        lemma_minimal_below(m, s, k);
        let low = minimal_below(m, s, k);
        let all = minimal_below(m, s, n);
        assert forall|i: int| #![trigger is_minimal(m, s, i)]
            (i < n && s.has(i) && is_minimal(m, s, i)) == (exists|x: int|
                0 <= x < all.len() && all[x] == i) by {
            if i < n && s.has(i) && is_minimal(m, s, i) {
                if i < k {
                    let x = choose|x: int| 0 <= x < low.len() && low[x] == i;
                    assert(all[x] == i);
                } else {
                    assert(all[low.len() as int] == i);
                }
            }
            if exists|x: int| 0 <= x < all.len() && all[x] == i {
                let x = choose|x: int| 0 <= x < all.len() && all[x] == i;
                if x < low.len() {
                    assert(low[x] == i);
                }
            }
        }
    }
}

/// The name of a criterion; the empty name for an index that has none.
pub open spec fn name_of(m: CriteriaMapper, i: usize) -> Seq<char> {
    if i < m.names@.len() {
        m.names@[i as int]@
    } else {
        Seq::empty()
    }
}

/// The names of the criteria of `s` that no other criterion of `s` implies.
pub open spec fn names_of(m: CriteriaMapper, s: CriteriaSet) -> Seq<Seq<char>> {
    minimal(m, s).map_values(|i: usize| name_of(m, i))
}

/// The criteria below `n` that imply the criterion `i`, other than `i` itself.
pub open spec fn implied_by_below(m: CriteriaMapper, i: usize, n: nat) -> Seq<usize>
    decreases n,
{
    if n == 0 {
        Seq::empty()
    } else if n - 1 != i && m.implies_index(n - 1, i as int) {
        implied_by_below(m, i, (n - 1) as nat).push((n - 1) as usize)
    } else {
        implied_by_below(m, i, (n - 1) as nat)
    }
}

proof fn lemma_path_extend(
    names: Seq<Seq<char>>,
    declared: Seq<Seq<Seq<char>>>,
    a: int,
    b: int,
    c: int,
)
    requires
        0 <= a < names.len(),
        declares(names, declared, a, b),
        implies(names, declared, b, c),
    ensures
        implies(names, declared, a, c),
{
    let p = choose|path: Seq<int>| #[trigger]
        is_implication_path(names, declared, path) && path[0] == b && path.last() == c;
    let q = seq![a] + p;
    assert(q[0] == a);
    assert(q.last() == c);
    assert forall|k: int| 0 <= k < q.len() implies 0 <= #[trigger] q[k] < names.len() by {
        if k > 0 {
            assert(q[k] == p[k - 1]);
        }
    }
    assert forall|k: int| 0 <= k < q.len() - 1 implies declares(
        names,
        declared,
        #[trigger] q[k],
        q[k + 1],
    ) by {
        assert(q[k + 1] == p[k]);
        if k > 0 {
            assert(q[k] == p[k - 1]);
        }
    }
    assert(is_implication_path(names, declared, q));
}

/// If the sets are closed under the declarations, they hold all that is
/// implied.
proof fn lemma_closed_complete(
    names: Seq<Seq<char>>,
    declared: Seq<Seq<Seq<char>>>,
    sets: Seq<CriteriaSet>,
    path: Seq<int>,
)
    requires
        sets.len() == names.len(),
        forall|a: int| 0 <= a < sets.len() ==> (#[trigger] sets[a]).has(a),
        forall|a: int, b: int|
            0 <= a < sets.len() && #[trigger] declares(names, declared, a, b) ==> sets[a].covers(
                sets[b],
            ),
        is_implication_path(names, declared, path),
    ensures
        sets[path[0]].has(path.last()),
    decreases path.len(),
{
    assert(0 <= path[0] < names.len());
    if path.len() > 1 {
        let p = path.drop_first();
        assert forall|k: int| 0 <= k < p.len() implies 0 <= #[trigger] p[k] < names.len() by {
            assert(p[k] == path[k + 1]);
        }
        assert forall|k: int| 0 <= k < p.len() - 1 implies declares(
            names,
            declared,
            #[trigger] p[k],
            p[k + 1],
        ) by {
            assert(p[k] == path[k + 1]);
            assert(p[k + 1] == path[k + 2]);
        }
        lemma_closed_complete(names, declared, sets, p);
        assert(declares(names, declared, path[0], path[1]));
        assert(p[0] == path[1]);
        assert(p.last() == path.last());
        assert(sets[path[1]].has(path.last()));
        assert(sets[path[0]].covers(sets[path[1]]));
    }
}

/// Whether `row` holds the index, if there is one.
spec fn listed(row: Seq<usize>, index: Option<int>) -> bool {
    index is Some ==> exists|m: int| 0 <= m < row.len() && #[trigger] row[m] == index->0
}

fn find_name(names: &Vec<String>, name: &str) -> (r: Option<usize>)
    ensures
        match r {
            Some(i) => index_of(text::texts(names@), name@) == Some(i as int) && i < names@.len(),
            None => index_of(text::texts(names@), name@) is None,
        },
{
    let ghost t = text::texts(names@);
    let mut i: usize = 0;
    while i < names.len()
        invariant
            i <= names.len(),
            t == text::texts(names@),
            forall|k: int| 0 <= k < i ==> #[trigger] t[k] != name@,
        decreases names.len() - i,
    {
        if text_eq(names[i].as_str(), name) {
            proof {
                assert(t[i as int] == name@);
                lemma_index_of_hit(t, i as int);
            }
            return Some(i);
        }
        i = i + 1;
    }
    proof {
        lemma_index_of(t, name@);
    }
    None
}

/// Adds to each set what the criteria it declares imply so far. Returns whether
/// anything was added.
fn expand_once(
    sets: &mut Vec<CriteriaSet>,
    direct: &Vec<Vec<usize>>,
    Ghost(names): Ghost<Seq<Seq<char>>>,
    Ghost(declared): Ghost<Seq<Seq<Seq<char>>>>,
) -> (changed: bool)
    requires
        old(sets)@.len() == names.len(),
        direct@.len() == names.len(),
        forall|a: int, k: int|
            0 <= a < direct@.len() && 0 <= k < direct@[a]@.len() ==> (#[trigger] direct@[a]@[k])
                < names.len() && declares(names, declared, a, direct@[a]@[k] as int),
        forall|a: int, j: int|
            0 <= a < names.len() && #[trigger] old(sets)@[a].has(j) ==> implies(
                names,
                declared,
                a,
                j,
            ),
    ensures
        final(sets)@.len() == names.len(),
        forall|a: int, j: int|
            0 <= a < names.len() && #[trigger] final(sets)@[a].has(j) ==> implies(
                names,
                declared,
                a,
                j,
            ),
        forall|a: int| 0 <= a < names.len() ==> (#[trigger] final(sets)@[a]).covers(old(sets)@[a]),
        changed ==> missing(final(sets)@) < missing(old(sets)@),
        !changed ==> final(sets)@ == old(sets)@ && forall|a: int, k: int|
            0 <= a < direct@.len() && 0 <= k < direct@[a]@.len() ==> final(sets)@[a].covers(
                final(sets)@[(#[trigger] direct@[a]@[k]) as int],
            ),
{
    let ghost start = sets@;
    let mut changed: bool = false;
    let mut a: usize = 0;
    while a < direct.len()
        invariant
            a <= direct.len(),
            start == old(sets)@,
            sets@.len() == names.len(),
            direct@.len() == names.len(),
            forall|a: int, k: int|
                0 <= a < direct@.len() && 0 <= k < direct@[a]@.len() ==> (#[trigger] direct@[a]@[k])
                    < names.len() && declares(names, declared, a, direct@[a]@[k] as int),
            forall|a: int, j: int|
                0 <= a < names.len() && #[trigger] sets@[a].has(j) ==> implies(
                    names,
                    declared,
                    a,
                    j,
                ),
            forall|a: int| 0 <= a < names.len() ==> (#[trigger] sets@[a]).covers(start[a]),
            changed ==> missing(sets@) < missing(start),
            !changed ==> sets@ == start && forall|b: int, k: int|
                0 <= b < a && 0 <= k < direct@[b]@.len() ==> sets@[b].covers(
                    sets@[(#[trigger] direct@[b]@[k]) as int],
                ),
        decreases direct.len() - a,
    {
        let mut k: usize = 0;
        while k < direct[a].len()
            invariant
                a < direct.len(),
                k <= direct@[a as int]@.len(),
                start == old(sets)@,
                sets@.len() == names.len(),
                direct@.len() == names.len(),
                forall|a: int, k: int|
                    0 <= a < direct@.len() && 0 <= k < direct@[a]@.len() ==> (
                    #[trigger] direct@[a]@[k]) < names.len() && declares(
                        names,
                        declared,
                        a,
                        direct@[a]@[k] as int,
                    ),
                forall|a: int, j: int|
                    0 <= a < names.len() && #[trigger] sets@[a].has(j) ==> implies(
                        names,
                        declared,
                        a,
                        j,
                    ),
                forall|a: int| 0 <= a < names.len() ==> (#[trigger] sets@[a]).covers(start[a]),
                changed ==> missing(sets@) < missing(start),
                !changed ==> sets@ == start && forall|b: int, k: int|
                    0 <= b < a && 0 <= k < direct@[b]@.len() ==> sets@[b].covers(
                        sets@[(#[trigger] direct@[b]@[k]) as int],
                    ),
                !changed ==> forall|j: int|
                    0 <= j < k ==> sets@[a as int].covers(
                        sets@[(#[trigger] direct@[a as int]@[j]) as int],
                    ),
            decreases direct@[a as int]@.len() - k,
        {
            let b: usize = direct[a][k];
            assert(b == direct@[a as int]@[k as int]);
            let other: CriteriaSet = sets[b];
            let mine: CriteriaSet = sets[a];
            if !mine.contains(&other) {
                let mut grown: CriteriaSet = mine;
                grown.unioned_with(&other);
                let ghost before = sets@;
                sets[a] = grown;
                proof {
                    assert(sets@ == before.update(a as int, grown));
                    assert(grown.covers(mine));
                    let i = choose|i: int| #[trigger] other.has(i) && !mine.has(i);
                    assert(grown.has(i));
                    lemma_missing_update(before, a as int, grown);
                    assert forall|x: int, j: int|
                        0 <= x < names.len() && #[trigger] sets@[x].has(j) implies implies(
                        names,
                        declared,
                        x,
                        j,
                    ) by {
                        if x == a {
                            if !before[x].has(j) {
                                assert(before[b as int].has(j));
                                lemma_path_extend(names, declared, x, b as int, j);
                            }
                        } else {
                            assert(before[x].has(j));
                        }
                    }
                    assert forall|x: int| 0 <= x < names.len() implies (
                    #[trigger] sets@[x]).covers(start[x]) by {
                        assert(before[x].covers(start[x]));
                    }
                }
                changed = true;
            }
            k = k + 1;
        }
        a = a + 1;
    }
    changed
}

impl CriteriaMapper {
    /// Every criterion has a name and a set of implied criteria.
    pub open spec fn wf(&self) -> bool {
        &&& self.names@.len() == self.implied@.len()
        &&& self.names@.len() <= MAX_CRITERIA
        &&& forall|i: int, j: int|
            0 <= i < self.implied@.len() && #[trigger] self.implied@[i].has(j) ==> j
                < self.names@.len()
    }

    /// Whether the criterion `a` implies the criterion `b`.
    pub open spec fn implies_index(&self, a: int, b: int) -> bool {
        0 <= a < self.implied@.len() && self.implied@[a].has(b)
    }

    /// Collects the criteria, with all that they imply.
    pub fn new(criteria: &SortedMap<CriteriaEntry>) -> (r: CriteriaMapper)
        requires
            criteria.entries().len() + 2 <= MAX_CRITERIA,
        ensures
            r.wf(),
            models_criteria(r, *criteria),
    {
        let ghost order = criteria_order(*criteria);
        let ghost declared = declared_implications(*criteria);
        let mut names: Vec<String> = Vec::new();
        names.push("safe-to-run".to_owned());
        names.push("safe-to-deploy".to_owned());
        let n: usize = criteria.len();
        let mut i: usize = 0;
        assert(text::texts(names@) =~= order.take(2));
        while i < n
            invariant
                i <= n,
                n == criteria.entries().len(),
                order == criteria_order(*criteria),
                names@.len() == i + 2,
                text::texts(names@) == order.take(i + 2),
            decreases n - i,
        {
            names.push(criteria.key_at(i).clone());
            i = i + 1;
            assert(text::texts(names@) =~= order.take(i + 2));
        }
        assert(order.take(i + 2) =~= order);

        let mut direct: Vec<Vec<usize>> = Vec::new();
        let mut sets: Vec<CriteriaSet> = Vec::new();
        let mut a: usize = 0;
        while a < names.len()
            invariant
                a <= names.len(),
                names@.len() <= MAX_CRITERIA,
                n == criteria.entries().len(),
                names@.len() == n + 2,
                order == criteria_order(*criteria),
                declared == declared_implications(*criteria),
                text::texts(names@) == order,
                direct@.len() == a,
                sets@.len() == a,
                forall|x: int, k: int|
                    0 <= x < a && 0 <= k < direct@[x]@.len() ==> (#[trigger] direct@[x]@[k])
                        < order.len() && declares(order, declared, x, direct@[x]@[k] as int),
                forall|x: int, b: int|
                    0 <= x < a && #[trigger] declares(order, declared, x, b) ==> exists|k: int|
                        0 <= k < direct@[x]@.len() && #[trigger] direct@[x]@[k] == b,
                forall|x: int, j: int| 0 <= x < a ==> #[trigger] sets@[x].has(j) == (j == x),
            decreases names.len() - a,
        {
            let mut row: Vec<usize> = Vec::new();
            if a == 1 {
                assert(declared[1] == seq![safe_to_run()]);
                match find_name(&names, "safe-to-run") {
                    Some(b) => {
                        row.push(b);
                        assert(index_of(order, declared[1][0]) == Some(b as int));
                    },
                    None => {},
                }
            } else if a > 1 {
                let entry = criteria.value_at(a - 2);
                assert(declared[a as int] == text::texts(entry.implies@));
                let mut k: usize = 0;
                while k < entry.implies.len()
                    invariant
                        k <= entry.implies@.len(),
                        order.len() == names@.len(),
                        text::texts(names@) == order,
                        declared[a as int] == text::texts(entry.implies@),
                        forall|j: int|
                            0 <= j < row@.len() ==> (#[trigger] row@[j]) < order.len() && declares(
                                order,
                                declared,
                                a as int,
                                row@[j] as int,
                            ),
                        forall|j: int|
                            0 <= j < k ==> listed(
                                row@,
                                index_of(order, #[trigger] declared[a as int][j]),
                            ),
                    decreases entry.implies@.len() - k,
                {
                    let ghost before = row@;
                    match find_name(&names, entry.implies[k].as_str()) {
                        Some(b) => {
                            row.push(b);
                            proof {
                                assert(index_of(order, declared[a as int][k as int]) == Some(
                                    b as int,
                                ));
                                assert(row@[before.len() as int] == b);
                            }
                        },
                        None => {},
                    }
                    proof {
                        assert forall|j: int| 0 <= j < k + 1 implies listed(
                            row@,
                            index_of(order, #[trigger] declared[a as int][j]),
                        ) by {
                            if j < k {
                                let hit = index_of(order, declared[a as int][j]);
                                assert(listed(before, hit));
                                if hit is Some {
                                    let m = choose|m: int|
                                        0 <= m < before.len() && #[trigger] before[m] == hit->0;
                                    assert(row@[m] == hit->0);
                                }
                            }
                        }
                    }
                    k = k + 1;
                }
            } else {
                assert(declared[0].len() == 0);
            }
            proof {
                assert forall|b: int| #[trigger]
                    declares(order, declared, a as int, b) implies exists|k: int|
                    0 <= k < row@.len() && #[trigger] row@[k] == b by {
                    let k = choose|k: int|
                        0 <= k < declared[a as int].len() && index_of(
                            order,
                            #[trigger] declared[a as int][k],
                        ) == Some(b);
                    if a > 1 {
                        assert(listed(row@, index_of(order, declared[a as int][k])));
                    }
                    if a == 1 {
                        assert(row@[0] == b);
                    }
                }
            }
            let ghost before = direct@;
            let ghost before_sets = sets@;
            direct.push(row);
            let mut own: CriteriaSet = CriteriaSet::none();
            own.set_criteria(a);
            sets.push(own);
            proof {
                assert forall|x: int, b: int|
                    0 <= x < a + 1 && #[trigger] declares(order, declared, x, b) implies exists|
                    k: int,
                |
                    0 <= k < direct@[x]@.len() && #[trigger] direct@[x]@[k] == b by {
                    if x < a {
                        assert(direct@[x] == before[x]);
                    } else {
                        assert(direct@[x] == row);
                    }
                }
                assert forall|x: int, k: int|
                    0 <= x < a + 1 && 0 <= k < direct@[x]@.len() implies (#[trigger] direct@[x]@[k])
                    < order.len() && declares(order, declared, x, direct@[x]@[k] as int) by {
                    if x < a {
                        assert(direct@[x] == before[x]);
                    } else {
                        assert(direct@[x] == row);
                        assert(row@[k] < order.len());
                    }
                }
                assert forall|x: int, j: int| 0 <= x < a + 1 implies #[trigger] sets@[x].has(j) == (
                j == x) by {
                    if x < a {
                        assert(sets@[x] == before_sets[x]);
                    } else {
                        assert(sets@[x] == own);
                    }
                }
            }
            a = a + 1;
        }
        proof {
            assert forall|x: int, j: int|
                0 <= x < order.len() && #[trigger] sets@[x].has(j) implies implies(
                order,
                declared,
                x,
                j,
            ) by {
                let p = seq![x];
                assert(is_implication_path(order, declared, p));
                assert(p[0] == x && p.last() == x);
            }
        }
        let mut changed: bool = true;
        let ghost initial = sets@;
        while changed
            invariant
                sets@.len() == order.len(),
                direct@.len() == order.len(),
                initial.len() == order.len(),
                forall|x: int, k: int|
                    0 <= x < direct@.len() && 0 <= k < direct@[x]@.len() ==> (
                    #[trigger] direct@[x]@[k]) < order.len() && declares(
                        order,
                        declared,
                        x,
                        direct@[x]@[k] as int,
                    ),
                forall|x: int, j: int|
                    0 <= x < order.len() && #[trigger] sets@[x].has(j) ==> implies(
                        order,
                        declared,
                        x,
                        j,
                    ),
                forall|x: int| 0 <= x < order.len() ==> (#[trigger] sets@[x]).covers(initial[x]),
                !changed ==> forall|x: int, k: int|
                    0 <= x < direct@.len() && 0 <= k < direct@[x]@.len() ==> sets@[x].covers(
                        sets@[(#[trigger] direct@[x]@[k]) as int],
                    ),
            decreases missing(sets@) + (if changed {
                    1int
                } else {
                    0int
                }),
        {
            let ghost before = sets@;
            changed = expand_once(&mut sets, &direct, Ghost(order), Ghost(declared));
            proof {
                assert forall|x: int| 0 <= x < order.len() implies (#[trigger] sets@[x]).covers(
                    initial[x],
                ) by {
                    assert(sets@[x].covers(before[x]));
                    assert(before[x].covers(initial[x]));
                }
            }
        }
        proof {
            assert forall|x: int| 0 <= x < sets@.len() implies (#[trigger] sets@[x]).has(x) by {
                assert(initial[x].has(x));
                assert(sets@[x].covers(initial[x]));
            }
            assert forall|x: int, b: int|
                0 <= x < sets@.len() && #[trigger] declares(order, declared, x, b) implies sets@[x].covers(
                sets@[b],
            ) by {
                let k = choose|k: int|
                    0 <= k < direct@[x]@.len() && #[trigger] direct@[x]@[k] == b;
                assert(direct@[x]@[k] == b);
            }
            assert forall|x: int, b: int|
                0 <= x < names@.len() implies #[trigger] sets@[x].has(b) == implies(
                order,
                declared,
                x,
                b,
            ) by {
                if implies(order, declared, x, b) {
                    let p = choose|path: Seq<int>| #[trigger]
                        is_implication_path(order, declared, path) && path[0] == x && path.last()
                            == b;
                    lemma_closed_complete(order, declared, sets@, p);
                }
            }
            assert forall|x: int, b: int|
                0 <= x < sets@.len() && #[trigger] sets@[x].has(b) implies b < names@.len() by {
                let p = choose|path: Seq<int>| #[trigger]
                    is_implication_path(order, declared, path) && path[0] == x && path.last() == b;
                assert(0 <= p[p.len() - 1] < order.len());
            }
        }
        CriteriaMapper { names, implied: sets }
    }

    /// The number of criteria.
    pub fn len(&self) -> (r: usize)
        ensures
            r == self.names@.len(),
    {
        self.names.len()
    }

    /// The set of all criteria.
    pub fn all_criteria(&self) -> (r: CriteriaSet)
        requires
            self.wf(),
        ensures
            r == all_set(self.names@.len() as int),
            forall|i: int| #[trigger] r.has(i) == (0 <= i < self.names@.len()),
    {
        CriteriaSet::all(self.names.len())
    }

    /// The criteria that a list of names stands for, with all that they imply.
    pub fn criteria_from_list(&self, list: &Vec<String>) -> (r: CriteriaSet)
        requires
            self.wf(),
        ensures
            r == criteria_of(*self, text::texts(list@)),
    {
        let ghost t = text::texts(list@);
        let mut r: CriteriaSet = CriteriaSet::none();
        let mut i: usize = 0;
        while i < list.len()
            invariant
                i <= list.len(),
                self.wf(),
                t == text::texts(list@),
                r == criteria_of(*self, t.take(i as int)),
            decreases list.len() - i,
        {
            proof {
                assert(t.take(i + 1).drop_last() =~= t.take(i as int));
                assert(t.take(i + 1).last() == list@[i as int]@);
            }
            match find_name(&self.names, list[i].as_str()) {
                Some(k) => {
                    let other: CriteriaSet = self.implied[k];
                    r.unioned_with(&other);
                },
                None => {},
            }
            i = i + 1;
        }
        assert(t.take(i as int) =~= t);
        r
    }

    /// The criteria that one name stands for.
    pub fn criteria_from_name(&self, name: &str) -> (r: CriteriaSet)
        requires
            self.wf(),
        ensures
            r == criteria_of(*self, seq![name@]),
    {
        let mut list: Vec<String> = Vec::new();
        list.push(name.to_owned());
        assert(text::texts(list@) =~= seq![name@]);
        self.criteria_from_list(&list)
    }

    /// The criteria of a set that no other criterion of the set implies, in
    /// increasing order.
    pub fn minimal_indices(&self, set: &CriteriaSet) -> (r: Vec<usize>)
        requires
            self.wf(),
        ensures
            r@ == minimal(*self, *set),
    {
        let mut r: Vec<usize> = Vec::new();
        let mut i: usize = 0;
        while i < MAX_CRITERIA
            invariant
                i <= MAX_CRITERIA,
                self.wf(),
                r@ == minimal_below(*self, *set, i as nat),
            decreases MAX_CRITERIA - i,
        {
            if set.has_criteria(i) {
                let mut lone: bool = true;
                let mut j: usize = 0;
                while j < MAX_CRITERIA
                    invariant
                        j <= MAX_CRITERIA,
                        i < MAX_CRITERIA,
                        self.wf(),
                        lone == (forall|k: int|
                            k < j && #[trigger] set.has(k) && k != i ==> !self.implies_index(
                                k,
                                i as int,
                            )),
                    decreases MAX_CRITERIA - j,
                {
                    if j != i && set.has_criteria(j) && j < self.implied.len()
                        && self.implied[j].has_criteria(i) {
                        assert(set.has(j as int) && self.implies_index(j as int, i as int));
                        lone = false;
                    }
                    j = j + 1;
                }
                assert(lone == is_minimal(*self, *set, i as int)) by {
                    if lone {
                        assert forall|k: int| #[trigger] set.has(k) && k != i implies !self.implies_index(
                            k,
                            i as int,
                        ) by {
                            assert(k < j);
                        }
                    }
                }
                if lone {
                    r.push(i);
                }
            }
            i = i + 1;
        }
        r
    }

    /// The name of a criterion.
    pub fn criteria_name(&self, idx: usize) -> (r: String)
        ensures
            r@ == name_of(*self, idx),
    {
        if idx < self.names.len() {
            self.names[idx].clone()
        } else {
            String::new()
        }
    }

    /// The names of the criteria of a set that no other criterion of the set
    /// implies.
    pub fn criteria_names(&self, set: &CriteriaSet) -> (r: Vec<String>)
        requires
            self.wf(),
        ensures
            text::texts(r@) == names_of(*self, *set),
    {
        let idx: Vec<usize> = self.minimal_indices(set);
        let mut r: Vec<String> = Vec::new();
        let mut i: usize = 0;
        while i < idx.len()
            invariant
                i <= idx.len(),
                idx@ == minimal(*self, *set),
                text::texts(r@) == names_of(*self, *set).take(i as int),
            decreases idx.len() - i,
        {
            let ghost before = r@;
            r.push(self.criteria_name(idx[i]));
            proof {
                let all = names_of(*self, *set);
                assert(all[i as int] == name_of(*self, idx@[i as int]));
                assert(text::texts(r@) =~= text::texts(before).push(all[i as int]));
                assert(all.take(i + 1) =~= all.take(i as int).push(all[i as int]));
            }
            i = i + 1;
        }
        assert(names_of(*self, *set).take(i as int) =~= names_of(*self, *set));
        r
    }

    /// The other criteria that imply a criterion, in increasing order.
    pub fn implied_by_indices(&self, idx: usize) -> (r: Vec<usize>)
        requires
            self.wf(),
        ensures
            r@ == implied_by_below(*self, idx, self.names@.len()),
    {
        let mut r: Vec<usize> = Vec::new();
        let mut i: usize = 0;
        while i < self.names.len()
            invariant
                i <= self.names.len(),
                self.wf(),
                r@ == implied_by_below(*self, idx, i as nat),
            decreases self.names.len() - i,
        {
            if i != idx && self.implied[i].has_criteria(idx) {
                r.push(i);
            }
            i = i + 1;
        }
        r
    }
}

} // verus!
