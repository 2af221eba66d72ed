//! Ordering by sort keys.
//!
//! Every ordered type of this crate is mapped to a sequence of integers, and
//! two values are compared by comparing those sequences lexicographically.

use vstd::prelude::*;

verus! {

/// Whether `a` comes before `b`, or equals it, in lexicographic order. A
/// proper prefix comes before the longer sequence.
pub open spec fn lex_le(a: Seq<u64>, b: Seq<u64>) -> bool
    decreases a.len(),
{
    if a.len() == 0 {
        true
    } else if b.len() == 0 {
        false
    } else if a[0] != b[0] {
        a[0] < b[0]
    } else {
        lex_le(a.drop_first(), b.drop_first())
    }
}

/// Whether `a` comes strictly before `b` in lexicographic order.
pub open spec fn lex_lt(a: Seq<u64>, b: Seq<u64>) -> bool {
    !lex_le(b, a)
}

/// Any two keys are comparable.
pub proof fn lemma_lex_total(a: Seq<u64>, b: Seq<u64>)
    ensures
        lex_le(a, b) || lex_le(b, a),
    decreases a.len(),
{
    if a.len() > 0 && b.len() > 0 && a[0] == b[0] {
        lemma_lex_total(a.drop_first(), b.drop_first());
    }
}

/// The lexicographic order is reflexive.
pub proof fn lemma_lex_refl(a: Seq<u64>)
    ensures
        lex_le(a, a),
    decreases a.len(),
{
    if a.len() > 0 {
        lemma_lex_refl(a.drop_first());
    }
}

/// A common prefix does not matter.
pub proof fn lemma_lex_prefix(p: Seq<u64>, a: Seq<u64>, b: Seq<u64>)
    ensures
        lex_le(p + a, p + b) == lex_le(a, b),
    decreases p.len(),
{
    if p.len() == 0 {
        assert(p + a =~= a);
        assert(p + b =~= b);
    } else {
        assert((p + a).drop_first() =~= p.drop_first() + a);
        assert((p + b).drop_first() =~= p.drop_first() + b);
        lemma_lex_prefix(p.drop_first(), a, b);
    }
}

/// The lexicographic order is transitive.
pub proof fn lemma_lex_trans(a: Seq<u64>, b: Seq<u64>, c: Seq<u64>)
    requires
        lex_le(a, b),
        lex_le(b, c),
    ensures
        lex_le(a, c),
    decreases a.len(),
{
    if a.len() > 0 && b.len() > 0 && c.len() > 0 {
        if a[0] == b[0] && b[0] == c[0] {
            lemma_lex_trans(a.drop_first(), b.drop_first(), c.drop_first());
        }
    }
}

/// Two keys that are each at most the other are the same key.
pub proof fn lemma_lex_antisym(a: Seq<u64>, b: Seq<u64>)
    requires
        lex_le(a, b),
        lex_le(b, a),
    ensures
        a == b,
    decreases a.len(),
{
    if a.len() > 0 && b.len() > 0 {
        lemma_lex_antisym(a.drop_first(), b.drop_first());
        assert(a =~= seq![a[0]] + a.drop_first());
        assert(b =~= seq![b[0]] + b.drop_first());
    } else {
        assert(a =~= b);
    }
}

/// Compares two keys.
pub fn key_le(a: &Vec<u64>, b: &Vec<u64>) -> (r: bool)
    ensures
        r == lex_le(a@, b@),
{
    let mut i: usize = 0;
    proof {
        assert(a@.skip(0) =~= a@);
        assert(b@.skip(0) =~= b@);
    }
    while i < a.len() && i < b.len()
        invariant
            i <= a.len(),
            i <= b.len(),
            lex_le(a@, b@) == lex_le(a@.skip(i as int), b@.skip(i as int)),
        decreases a.len() - i,
    {
        if a[i] != b[i] {
            return a[i] < b[i];
        }
        proof {
            assert(a@.skip(i as int).drop_first() =~= a@.skip(i + 1));
            assert(b@.skip(i as int).drop_first() =~= b@.skip(i + 1));
        }
        i = i + 1;
    }
    i == a.len()
}

/// A type that is ordered by a key.
pub trait Keyed: Sized {
    /// The key that orders the value.
    spec fn sort_key(&self) -> Seq<u64>;

    /// Appends the key to `out`.
    fn push_key(&self, out: &mut Vec<u64>)
        ensures
            final(out)@ == old(out)@ + self.sort_key(),
    ;
}

/// Computes the key of a value.
pub fn key_of<T: Keyed>(x: &T) -> (k: Vec<u64>)
    ensures
        k@ == x.sort_key(),
{
    let mut k: Vec<u64> = Vec::new();
    x.push_key(&mut k);
    assert(k@ =~= x.sort_key());
    k
}

/// Whether the keys of `s` never decrease.
pub open spec fn is_sorted<T: Keyed>(s: Seq<T>) -> bool {
    forall|i: int, j: int|
        0 <= i < j < s.len() ==> lex_le((#[trigger] s[i]).sort_key(), (#[trigger] s[j]).sort_key())
}

/// `s` with `x` put behind the last item whose key is at most the key of `x`.
pub open spec fn insert_by_key<T: Keyed>(s: Seq<T>, x: T) -> Seq<T>
    decreases s.len(),
{
    if s.len() == 0 || lex_le(s.last().sort_key(), x.sort_key()) {
        s.push(x)
    } else {
        insert_by_key(s.drop_last(), x).push(s.last())
    }
}

/// `s` sorted by key; items with equal keys keep their order.
pub open spec fn sort_by_key<T: Keyed>(s: Seq<T>) -> Seq<T>
    decreases s.len(),
{
    if s.len() == 0 {
        s
    } else {
        insert_by_key(sort_by_key(s.drop_last()), s.last())
    }
}

proof fn lemma_insert_by_key<T: Keyed>(s: Seq<T>, x: T)
    requires
        is_sorted(s),
    ensures
        is_sorted(insert_by_key(s, x)),
        insert_by_key(s, x).to_multiset() =~= s.to_multiset().insert(x),
        insert_by_key(s, x).len() == s.len() + 1,
    decreases s.len(),
{
    broadcast use vstd::seq_lib::group_to_multiset_ensures;

    let r = insert_by_key(s, x);
    if s.len() == 0 {
    } else if lex_le(s.last().sort_key(), x.sort_key()) {
        assert forall|i: int, j: int| 0 <= i < j < r.len() implies lex_le(
            (#[trigger] r[i]).sort_key(),
            (#[trigger] r[j]).sort_key(),
        ) by {
            if j == s.len() && i < s.len() - 1 {
                lemma_lex_trans(r[i].sort_key(), s.last().sort_key(), x.sort_key());
            }
        }
    } else {
        let t = s.drop_last();
        lemma_insert_by_key(t, x);
        let u = insert_by_key(t, x);
        lemma_lex_total(s.last().sort_key(), x.sort_key());
        assert(s =~= t.push(s.last()));
        assert(s.to_multiset() =~= t.to_multiset().insert(s.last()));
        assert(r.to_multiset() =~= u.to_multiset().insert(s.last()));
        assert forall|i: int| 0 <= i < u.len() implies lex_le(
            (#[trigger] u[i]).sort_key(),
            s.last().sort_key(),
        ) by {
            assert(u.to_multiset().contains(u[i]));
            assert(t.to_multiset().insert(x).contains(u[i]));
            if u[i] != x {
                assert(t.to_multiset().contains(u[i]));
                assert(t.contains(u[i]));
            }
        }
    }
}

/// Sorting yields a sorted sequence of the same items.
pub proof fn lemma_sort_by_key<T: Keyed>(s: Seq<T>)
    ensures
        is_sorted(sort_by_key(s)),
        sort_by_key(s).to_multiset() =~= s.to_multiset(),
        sort_by_key(s).len() == s.len(),
    decreases s.len(),
{
    broadcast use vstd::seq_lib::group_to_multiset_ensures;

    if s.len() > 0 {
        lemma_sort_by_key(s.drop_last());
        lemma_insert_by_key(sort_by_key(s.drop_last()), s.last());
        assert(s =~= s.drop_last().push(s.last()));
    }
}

/// Whether `list` holds the items `wanted`, sorted by key.
pub open spec fn is_arrangement<T: Keyed + View>(list: Seq<T>, wanted: Seq<T::V>) -> bool {
    is_sorted(list) && list.map_values(|x: T| x@).to_multiset() == wanted.to_multiset()
}

proof fn lemma_insert_views<T: Keyed + View>(s: Seq<T>, x: T)
    ensures
        insert_by_key(s, x).map_values(|y: T| y@).to_multiset() =~= s.map_values(
            |y: T| y@,
        ).to_multiset().insert(x@),
    decreases s.len(),
{
    broadcast use vstd::seq_lib::group_to_multiset_ensures;

    let f = |y: T| y@;
    if s.len() == 0 || lex_le(s.last().sort_key(), x.sort_key()) {
        assert(s.push(x).map_values(f) =~= s.map_values(f).push(x@));
    } else {
        let t = s.drop_last();
        lemma_insert_views(t, x);
        assert(insert_by_key(t, x).push(s.last()).map_values(f) =~= insert_by_key(t, x).map_values(
            f,
        ).push(s.last()@));
        assert(s.map_values(f) =~= t.map_values(f).push(s.last()@));
    }
}

proof fn lemma_sort_views<T: Keyed + View>(s: Seq<T>)
    ensures
        sort_by_key(s).map_values(|y: T| y@).to_multiset() =~= s.map_values(
            |y: T| y@,
        ).to_multiset(),
    decreases s.len(),
{
    broadcast use vstd::seq_lib::group_to_multiset_ensures;

    let f = |y: T| y@;
    if s.len() > 0 {
        lemma_sort_views(s.drop_last());
        lemma_insert_views(sort_by_key(s.drop_last()), s.last());
        assert(s.map_values(f) =~= s.drop_last().map_values(f).push(s.last()@));
    }
}

/// Sorting arranges the items.
pub proof fn lemma_sort_arranges<T: Keyed + View>(s: Seq<T>)
    ensures
        is_arrangement(sort_by_key(s), s.map_values(|y: T| y@)),
{
    lemma_sort_by_key(s);
    lemma_sort_views(s);
}

fn insert_item<T: Keyed>(v: &mut Vec<T>, x: T)
    ensures
        final(v)@ == insert_by_key(old(v)@, x),
{
    let key = key_of(&x);
    let mut i: usize = v.len();
    let ghost s = v@;
    proof {
        assert(s.take(i as int) =~= s);
        assert(s.skip(i as int) =~= Seq::<T>::empty());
        assert(insert_by_key(s, x) =~= insert_by_key(s.take(i as int), x) + s.skip(i as int));
    }
    while i > 0
        invariant
            i <= v.len(),
            v@ == s,
            key@ == x.sort_key(),
            insert_by_key(s, x) == insert_by_key(s.take(i as int), x) + s.skip(i as int),
        ensures
            i <= v.len(),
            insert_by_key(s, x) == s.take(i as int).push(x) + s.skip(i as int),
        decreases i,
    {
        let prev = key_of(&v[i - 1]);
        if key_le(&prev, &key) {
            assert(s.take(i as int).last() == s[i - 1]);
            break;
        }
        proof {
            let t = s.take(i as int);
            assert(t.drop_last() =~= s.take(i - 1));
            assert(insert_by_key(s.take(i - 1), x).push(s[i - 1]) + s.skip(i as int)
                =~= insert_by_key(s.take(i - 1), x) + s.skip(i - 1));
        }
        i = i - 1;
    }
    v.insert(i, x);
    proof {
        assert(v@ =~= s.take(i as int).push(x) + s.skip(i as int));
    }
}

/// Sorts by key; items with equal keys keep their order.
pub fn sort<T: Keyed>(items: Vec<T>) -> (r: Vec<T>)
    ensures
        r@ == sort_by_key(items@),
{
    let ghost s = items@;
    let mut rest = items;
    let mut sorted: Vec<T> = Vec::new();
    let mut done: Ghost<int> = Ghost(0);
    proof {
        assert(s.take(0) =~= Seq::<T>::empty());
        assert(s.skip(0) =~= s);
    }
    while rest.len() > 0
        invariant
            0 <= done@ <= s.len(),
            rest@ == s.skip(done@),
            sorted@ == sort_by_key(s.take(done@)),
        decreases rest.len(),
    {
        let x = rest.remove(0);
        proof {
            assert(x == s[done@]);
            assert(s.take(done@ + 1).drop_last() =~= s.take(done@));
            assert(s.take(done@ + 1).last() == x);
            assert(s.skip(done@).remove(0) =~= s.skip(done@ + 1));
        }
        insert_item(&mut sorted, x);
        proof {
            done@ = done@ + 1;
        }
    }
    proof {
        assert(s.take(done@) =~= s);
    }
    sorted
}

/// A position with the key that orders it.
struct Ranked {
    key: Vec<u64>,
    position: usize,
}

impl Keyed for Ranked {
    closed spec fn sort_key(&self) -> Seq<u64> {
        self.key@
    }

    fn push_key(&self, out: &mut Vec<u64>) {
        let mut i: usize = 0;
        let ghost before = out@;
        while i < self.key.len()
            invariant
                i <= self.key@.len(),
                out@ == before + self.key@.take(i as int),
            decreases self.key@.len() - i,
        {
            out.push(self.key[i]);
            assert(self.key@.take(i + 1) =~= self.key@.take(i as int).push(self.key@[i as int]));
            i = i + 1;
        }
        assert(self.key@.take(i as int) =~= self.key@);
    }
}

/// The keys of a list.
pub open spec fn key_views(keys: Seq<Vec<u64>>) -> Seq<Seq<u64>> {
    keys.map_values(|k: Vec<u64>| k@)
}

/// Whether `positions` holds each position of `keys` once, ordered by key, and
/// positions with equal keys in ascending order.
pub open spec fn is_stable_order(keys: Seq<Seq<u64>>, positions: Seq<usize>) -> bool {
    &&& positions.len() == keys.len()
    &&& forall|i: int| 0 <= i < positions.len() ==> (#[trigger] positions[i]) < keys.len()
    &&& forall|i: int, j: int|
        0 <= i < j < positions.len() ==> {
            let a = (#[trigger] positions[i]) as int;
            let b = (#[trigger] positions[j]) as int;
            a != b && lex_le(keys[a], keys[b]) && (keys[a] == keys[b] ==> a < b)
        }
}

/// Whether items are ordered by key and then by position.
spec fn is_ranked(s: Seq<Ranked>) -> bool {
    forall|i: int, j: int|
        0 <= i < j < s.len() ==> lex_le((#[trigger] s[i]).key@, (#[trigger] s[j]).key@)
            && s[i].position != s[j].position && (s[i].key@ == s[j].key@ ==> s[i].position
            < s[j].position)
}

proof fn lemma_insert_ranked(s: Seq<Ranked>, x: Ranked)
    requires
        is_ranked(s),
        forall|i: int| 0 <= i < s.len() ==> (#[trigger] s[i]).position < x.position,
    ensures
        is_ranked(insert_by_key(s, x)),
        insert_by_key(s, x).len() == s.len() + 1,
        forall|i: int|
            0 <= i < s.len() + 1 ==> (#[trigger] insert_by_key(s, x)[i]) == x || (exists|j: int|
                0 <= j < s.len() && s[j] == insert_by_key(s, x)[i]),
    decreases s.len(),
{
    let r = insert_by_key(s, x);
    if s.len() == 0 {
        assert(r =~= seq![x]);
    } else if lex_le(s.last().sort_key(), x.sort_key()) {
        assert forall|i: int, j: int| 0 <= i < j < r.len() implies lex_le(
            (#[trigger] r[i]).key@,
            (#[trigger] r[j]).key@,
        ) && r[i].position != r[j].position && (r[i].key@ == r[j].key@ ==> r[i].position
            < r[j].position) by {
            if j == s.len() {
                assert(r[i] == s[i]);
                if i < s.len() - 1 {
                    assert(lex_le(s[i].key@, s[s.len() - 1].key@));
                    lemma_lex_trans(s[i].key@, s.last().key@, x.key@);
                }
            } else {
                assert(r[i] == s[i] && r[j] == s[j]);
            }
        }
        assert forall|i: int| 0 <= i < s.len() + 1 implies (#[trigger] r[i]) == x || (exists|j: int|
            0 <= j < s.len() && s[j] == r[i]) by {
            if i < s.len() {
                assert(s[i] == r[i]);
            }
        }
    } else {
        let t = s.drop_last();
        assert forall|i: int| 0 <= i < t.len() implies (#[trigger] t[i]).position
            < x.position by {
            assert(t[i] == s[i]);
        }
        lemma_insert_ranked(t, x);
        let u = insert_by_key(t, x);
        lemma_lex_total(s.last().key@, x.key@);
        lemma_lex_refl(x.key@);
        assert forall|i: int, j: int| 0 <= i < j < r.len() implies lex_le(
            (#[trigger] r[i]).key@,
            (#[trigger] r[j]).key@,
        ) && r[i].position != r[j].position && (r[i].key@ == r[j].key@ ==> r[i].position
            < r[j].position) by {
            if j == s.len() {
                assert(r[i] == u[i]);
                assert(r[j] == s.last());
                if u[i] != x {
                    let k = choose|k: int| 0 <= k < t.len() && t[k] == u[i];
                    assert(s[k] == u[i]);
                    assert(s[s.len() - 1] == s.last());
                } else {
                    assert(s[s.len() - 1].position < x.position);
                }
            } else {
                assert(r[i] == u[i] && r[j] == u[j]);
            }
        }
        assert forall|i: int| 0 <= i < s.len() + 1 implies (#[trigger] r[i]) == x || (exists|j: int|
            0 <= j < s.len() && s[j] == r[i]) by {
            if i == s.len() {
                assert(s[s.len() - 1] == r[i]);
            } else if r[i] != x {
                assert(r[i] == u[i]);
                let k = choose|k: int| 0 <= k < t.len() && t[k] == u[i];
                assert(s[k] == r[i]);
            }
        }
    }
}

proof fn lemma_sort_ranked(s: Seq<Ranked>)
    requires
        forall|i: int| 0 <= i < s.len() ==> (#[trigger] s[i]).position == i,
    ensures
        is_ranked(sort_by_key(s)),
        sort_by_key(s).len() == s.len(),
        forall|i: int|
            0 <= i < s.len() ==> exists|j: int|
                0 <= j < s.len() && s[j] == #[trigger] sort_by_key(s)[i],
    decreases s.len(),
{
    if s.len() > 0 {
        let t = s.drop_last();
        assert forall|i: int| 0 <= i < t.len() implies (#[trigger] t[i]).position == i by {
            assert(t[i] == s[i]);
        }
        lemma_sort_ranked(t);
        let u = sort_by_key(t);
        let x = s.last();
        assert forall|i: int| 0 <= i < u.len() implies (#[trigger] u[i]).position < x.position by {
            let j = choose|j: int| 0 <= j < t.len() && t[j] == u[i];
            assert(t[j].position == j);
            assert(s[s.len() - 1].position == s.len() - 1);
        }
        lemma_insert_ranked(u, x);
        let r = sort_by_key(s);
        assert forall|i: int| 0 <= i < s.len() implies exists|j: int|
            0 <= j < s.len() && s[j] == #[trigger] r[i] by {
            if r[i] == x {
                assert(s[s.len() - 1] == r[i]);
            } else {
                let k = choose|k: int| 0 <= k < u.len() && u[k] == r[i];
                let j = choose|j: int| 0 <= j < t.len() && t[j] == u[k];
                assert(s[j] == r[i]);
            }
        }
    }
}

/// The positions of some keys, ordered by key. Positions with equal keys keep
/// their order.
pub fn sort_positions(keys: Vec<Vec<u64>>) -> (r: Vec<usize>)
    ensures
        is_stable_order(key_views(keys@), r@),
{
    let n: usize = keys.len();
    let ghost views = key_views(keys@);
    let mut rest = keys;
    let mut items: Vec<Ranked> = Vec::new();
    let mut i: usize = 0;
    assert(rest@ =~= keys@.skip(0));
    while i < n
        invariant
            n == keys@.len(),
            views == key_views(keys@),
            i <= n,
            rest@ == keys@.skip(i as int),
            items@.len() == i,
            forall|x: int|
                0 <= x < i ==> (#[trigger] items@[x]).position == x && items@[x].key@ == views[x],
        decreases n - i,
    {
        let key = rest.remove(0);
        assert(key == keys@[i as int]);
        items.push(Ranked { key, position: i });
        assert(keys@.skip(i as int).remove(0) =~= keys@.skip(i + 1));
        i = i + 1;
    }
    let ghost before = items@;
    let sorted = sort(items);
    proof {
        lemma_sort_ranked(before);
    }
    let mut r: Vec<usize> = Vec::new();
    let mut k: usize = 0;
    while k < sorted.len()
        invariant
            k <= sorted@.len(),
            r@.len() == k,
            forall|x: int| 0 <= x < k ==> #[trigger] r@[x] == sorted@[x].position,
        decreases sorted@.len() - k,
    {
        r.push(sorted[k].position);
        k = k + 1;
    }
    proof {
        assert forall|i: int| 0 <= i < r@.len() implies (#[trigger] r@[i]) < views.len()
            && sorted@[i].key@ == views[r@[i] as int] by {
            let j = choose|j: int| 0 <= j < before.len() && before[j] == sorted@[i];
            assert(before[j].position == j);
        }
        assert forall|i: int, j: int| 0 <= i < j < r@.len() implies {
            let a = (#[trigger] r@[i]) as int;
            let b = (#[trigger] r@[j]) as int;
            a != b && lex_le(views[a], views[b]) && (views[a] == views[b] ==> a < b)
        } by {
            assert(lex_le(sorted@[i].key@, sorted@[j].key@));
        }
    }
    r
}

/// Every position is in a stable order.
pub proof fn lemma_order_has(keys: Seq<Seq<u64>>, positions: Seq<usize>, p: int) -> (i: int)
    requires
        is_stable_order(keys, positions),
        keys.len() <= usize::MAX,
        0 <= p < keys.len(),
    ensures
        0 <= i < positions.len(),
        positions[i] == p,
{
    let n = keys.len();
    let range = Set::new(|x: usize| x < n);
    let has = positions.to_set();
    assert(positions.no_duplicates()) by {
        assert forall|i: int, j: int| 0 <= i < positions.len() && 0 <= j < positions.len() && i
            != j implies positions[i] != positions[j] by {
            if i < j {
                assert(positions[i] as int != positions[j] as int);
            } else {
                assert(positions[j] as int != positions[i] as int);
            }
        }
    }
    positions.unique_seq_to_set();
    lemma_range(n);
    assert(has.subset_of(range)) by {
        assert forall|x: usize| has.contains(x) implies range.contains(x) by {
            let i = choose|i: int| 0 <= i < positions.len() && positions[i] == x;
            assert(positions[i] < n);
        }
    }
    if !positions.contains(p as usize) {
        assert(has.subset_of(range.remove(p as usize)));
        vstd::set_lib::lemma_len_subset(has, range.remove(p as usize));
    }
    choose|i: int| 0 <= i < positions.len() && positions[i] == p
}

proof fn lemma_range(n: nat)
    requires
        n <= usize::MAX,
    ensures
        Set::new(|x: usize| x < n).finite(),
        Set::new(|x: usize| x < n).len() == n,
    decreases n,
{
    let s = Set::new(|x: usize| x < n);
    if n == 0 {
        assert(s =~= Set::<usize>::empty());
    } else {
        let m = (n - 1) as nat;
        lemma_range(m);
        assert(s =~= Set::new(|x: usize| x < m).insert(m as usize));
    }
}

} // verus!
