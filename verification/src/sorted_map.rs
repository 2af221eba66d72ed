//! A map with string keys, kept in the order of its keys.

use vstd::prelude::*;
use crate::order;
use crate::order::{key_le, key_of};
use crate::text;
use crate::text::text_eq;

verus! {

/// A map from strings to values that is walked in the order of its keys.
#[derive(Debug, PartialEq, Eq)]
pub struct SortedMap<V> {
    entries: Vec<(String, V)>,
}

/// The value of the first entry that has the key `name`.
pub open spec fn lookup<V>(s: Seq<(String, V)>, name: Seq<char>) -> Option<V>
    decreases s.len(),
{
    if s.len() == 0 {
        None
    } else if s[0].0@ == name {
        Some(s[0].1)
    } else {
        lookup(s.drop_first(), name)
    }
}

/// The list stored under `name`, or an empty one.
pub open spec fn list_at<T>(m: SortedMap<Vec<T>>, name: Seq<char>) -> Seq<T> {
    match m.get_spec(name) {
        Some(v) => v@,
        None => Seq::empty(),
    }
}

/// The contents of the items of a list.
pub open spec fn views<T: View>(s: Seq<T>) -> Seq<T::V> {
    s.map_values(|x: T| x@)
}

/// The contents of the list stored under `name`.
pub open spec fn views_at<T: View>(m: SortedMap<Vec<T>>, name: Seq<char>) -> Seq<T::V> {
    views(list_at(m, name))
}

/// A list stored under `name` has a length that fits.
pub proof fn lemma_list_fits<T>(m: SortedMap<Vec<T>>, name: Seq<char>)
    ensures
        list_at(m, name).len() <= usize::MAX,
{
    if let Some(v) = m.get_spec(name) {
        assert(v@.len() == v.len());
    }
}

proof fn lemma_lookup_hit<V>(s: Seq<(String, V)>, name: Seq<char>, i: int)
    requires
        0 <= i < s.len(),
        s[i].0@ == name,
        forall|k: int| 0 <= k < i ==> (#[trigger] s[k]).0@ != name,
    ensures
        lookup(s, name) == Some(s[i].1),
    decreases i,
{
    if i > 0 {
        assert(s[0].0@ != name);
        let t = s.drop_first();
        assert forall|k: int| 0 <= k < i - 1 implies (#[trigger] t[k]).0@ != name by {
            assert(s[k + 1].0@ != name);
        }
        lemma_lookup_hit(t, name, i - 1);
    }
}

/// A lookup fails exactly if no entry has the key.
pub proof fn lemma_lookup_none<V>(s: Seq<(String, V)>, name: Seq<char>)
    ensures
        lookup(s, name) is None <==> forall|k: int| 0 <= k < s.len() ==> (#[trigger] s[k]).0@ != name,
    decreases s.len(),
{
    if s.len() > 0 {
        let t = s.drop_first();
        lemma_lookup_none(t, name);
        if s[0].0@ != name {
            if lookup(t, name) is None {
                assert forall|k: int| 0 <= k < s.len() implies (#[trigger] s[k]).0@ != name by {
                    if k > 0 {
                        assert(t[k - 1].0@ != name);
                    }
                }
            } else {
                let k = choose|k: int| 0 <= k < t.len() && (#[trigger] t[k]).0@ == name;
                assert(s[k + 1].0@ == name);
            }
        } else {
            assert(s[0].0@ == name);
        }
    }
}

proof fn lemma_lookup_update<V>(s: Seq<(String, V)>, i: int, e: (String, V), name: Seq<char>)
    requires
        0 <= i < s.len(),
        s[i].0@ == e.0@,
        forall|k: int| 0 <= k < i ==> (#[trigger] s[k]).0@ != e.0@,
    ensures
        lookup(s.update(i, e), name) == (if name == e.0@ {
            Some(e.1)
        } else {
            lookup(s, name)
        }),
    decreases s.len(),
{
    let u = s.update(i, e);
    if i == 0 {
        assert(u.drop_first() =~= s.drop_first());
    } else {
        assert(s[0].0@ != e.0@);
        let t = s.drop_first();
        assert(u.drop_first() =~= t.update(i - 1, e));
        assert forall|k: int| 0 <= k < i - 1 implies (#[trigger] t[k]).0@ != e.0@ by {
            assert(s[k + 1].0@ != e.0@);
        }
        lemma_lookup_update(t, i - 1, e, name);
    }
}

proof fn lemma_lookup_insert<V>(s: Seq<(String, V)>, i: int, e: (String, V), name: Seq<char>)
    requires
        0 <= i <= s.len(),
        forall|k: int| 0 <= k < s.len() ==> (#[trigger] s[k]).0@ != e.0@,
    ensures
        lookup(s.insert(i, e), name) == (if name == e.0@ {
            Some(e.1)
        } else {
            lookup(s, name)
        }),
    decreases s.len(),
{
    let u = s.insert(i, e);
    if i == 0 {
        assert(u[0] == e);
        assert(u.drop_first() =~= s);
    } else {
        assert(u[0] == s[0]);
        assert(s[0].0@ != e.0@);
        let t = s.drop_first();
        assert(u.drop_first() =~= t.insert(i - 1, e));
        assert forall|k: int| 0 <= k < t.len() implies (#[trigger] t[k]).0@ != e.0@ by {
            assert(s[k + 1].0@ != e.0@);
        }
        lemma_lookup_insert(t, i - 1, e, name);
    }
}

/// Whether the keys increase strictly.
pub open spec fn increasing<V>(s: Seq<(String, V)>) -> bool {
    forall|i: int, j: int|
        0 <= i < j < s.len() ==> order::lex_lt(
            text::text_key((#[trigger] s[i]).0@),
            text::text_key((#[trigger] s[j]).0@),
        )
}

proof fn lemma_lookup_found<V>(s: Seq<(String, V)>, name: Seq<char>) -> (i: int)
    requires
        lookup(s, name) is Some,
    ensures
        0 <= i < s.len(),
        s[i].0@ == name,
        lookup(s, name) == Some(s[i].1),
    decreases s.len(),
{
    if s[0].0@ == name {
        0
    } else {
        let i = lemma_lookup_found(s.drop_first(), name);
        i + 1
    }
}

impl<V> SortedMap<V> {
    /// The entries, in order.
    pub closed spec fn entries(&self) -> Seq<(String, V)> {
        self.entries@
    }

    /// The keys, in order.
    pub open spec fn keys(&self) -> Seq<Seq<char>> {
        self.entries().map_values(|e: (String, V)| e.0@)
    }

    /// The value stored under `name`.
    pub open spec fn get_spec(&self, name: Seq<char>) -> Option<V> {
        lookup(self.entries(), name)
    }

    /// The keys increase strictly.
    #[verifier::type_invariant]
    pub open spec fn wf(&self) -> bool {
        increasing(self.entries())
    }

    /// No key has two entries.
    pub proof fn lemma_distinct(&self, i: int, j: int)
        requires
            self.wf(),
            0 <= i < j < self.entries().len(),
        ensures
            self.entries()[i].0@ != self.entries()[j].0@,
    {
        assert(order::lex_lt(
            text::text_key(self.entries()[i].0@),
            text::text_key(self.entries()[j].0@),
        ));
        order::lemma_lex_refl(text::text_key(self.entries()[j].0@));
    }

    /// The number of entries fits.
    pub proof fn lemma_fits(&self)
        ensures
            self.entries().len() <= usize::MAX,
    {
        assert(self.entries@.len() == self.entries.len());
    }

    /// Every entry is found under its key.
    pub proof fn lemma_get_at(&self, i: int)
        requires
            self.wf(),
            0 <= i < self.entries().len(),
        ensures
            self.get_spec(self.entries()[i].0@) == Some(self.entries()[i].1),
    {
        let s = self.entries();
        assert forall|k: int| 0 <= k < i implies (#[trigger] s[k]).0@ != s[i].0@ by {
            assert(order::lex_lt(text::text_key(s[k].0@), text::text_key(s[i].0@)));
            order::lemma_lex_refl(text::text_key(s[i].0@));
        }
        lemma_lookup_hit(s, s[i].0@, i);
    }

    /// What is found has an entry.
    pub proof fn lemma_found(&self, name: Seq<char>) -> (i: int)
        requires
            self.get_spec(name) is Some,
        ensures
            0 <= i < self.entries().len(),
            self.entries()[i].0@ == name,
            self.get_spec(name) == Some(self.entries()[i].1),
    {
        lemma_lookup_found(self.entries(), name)
    }

    /// An empty map.
    pub fn new() -> (r: SortedMap<V>)
        ensures
            r.entries() == Seq::<(String, V)>::empty(),
            r.wf(),
            forall|name: Seq<char>| (#[trigger] r.get_spec(name)) is None,
    {
        SortedMap { entries: Vec::new() }
    }

    /// The number of entries.
    pub fn len(&self) -> (r: usize)
        ensures
            r == self.entries().len(),
    {
        self.entries.len()
    }

    /// The key of the entry at a position.
    pub fn key_at(&self, i: usize) -> (r: &String)
        requires
            i < self.entries().len(),
        ensures
            *r == self.entries()[i as int].0,
    {
        &self.entries[i].0
    }

    /// The value of the entry at a position.
    pub fn value_at(&self, i: usize) -> (r: &V)
        requires
            i < self.entries().len(),
        ensures
            *r == self.entries()[i as int].1,
    {
        &self.entries[i].1
    }

    /// The position of the first entry that has a key.
    pub fn position(&self, name: &str) -> (r: Option<usize>)
        ensures
            match r {
                Some(i) => i < self.entries().len() && self.entries()[i as int].0@ == name@
                    && forall|k: int| 0 <= k < i ==> (#[trigger] self.entries()[k]).0@ != name@,
                None => forall|k: int|
                    0 <= k < self.entries().len() ==> (#[trigger] self.entries()[k]).0@ != name@,
            },
    {
        let mut i: usize = 0;
        while i < self.entries.len()
            invariant
                i <= self.entries.len(),
                forall|k: int| 0 <= k < i ==> (#[trigger] self.entries@[k]).0@ != name@,
            decreases self.entries.len() - i,
        {
            if text_eq(self.entries[i].0.as_str(), name) {
                return Some(i);
            }
            i = i + 1;
        }
        None
    }

    /// Looks up a key.
    pub fn get(&self, name: &str) -> (r: Option<&V>)
        ensures
            match r {
                Some(v) => self.get_spec(name@) == Some(*v),
                None => self.get_spec(name@) is None,
            },
    {
        match self.position(name) {
            Some(i) => {
                proof {
                    lemma_lookup_hit(self.entries(), name@, i as int);
                }
                Some(&self.entries[i].1)
            },
            None => {
                proof {
                    lemma_lookup_none(self.entries(), name@);
                }
                None
            },
        }
    }

    /// Whether a key has an entry.
    pub fn contains_key(&self, name: &str) -> (r: bool)
        ensures
            r == self.get_spec(name@) is Some,
    {
        self.get(name).is_some()
    }

    /// Stores a value under a key, in place of the value that was there.
    pub fn insert(&mut self, name: String, value: V)
        ensures
            forall|k: Seq<char>|
                #[trigger] final(self).get_spec(k) == (if k == name@ {
                    Some(value)
                } else {
                    old(self).get_spec(k)
                }),
            final(self).wf(),
    {
        proof {
            use_type_invariant(&*self);
        }
        let ghost before = self.entries();
        let ghost e = (name, value);
        let mut entries: Vec<(String, V)> = Vec::new();
        match self.position(name.as_str()) {
            Some(i) => {
                std::mem::swap(&mut entries, &mut self.entries);
                entries.set(i, (name, value));
                proof {
                    assert(entries@ =~= before.update(i as int, e));
                    assert forall|k: Seq<char>| #[trigger]
                        lookup(entries@, k) == (if k == name@ {
                            Some(value)
                        } else {
                            lookup(before, k)
                        }) by {
                        lemma_lookup_update(before, i as int, e, k);
                    }
                    assert(increasing(entries@)) by {
                        assert forall|a: int, b: int| 0 <= a < b < entries@.len() implies order::lex_lt(
                            text::text_key((#[trigger] entries@[a]).0@),
                            text::text_key((#[trigger] entries@[b]).0@),
                        ) by {
                            assert(entries@[a].0@ == before[a].0@);
                            assert(entries@[b].0@ == before[b].0@);
                        }
                    }
                }
            },
            None => {
                let key = key_of(&name);
                let mut i: usize = self.entries.len();
                while i > 0
                    invariant
                        i <= self.entries.len(),
                        self.entries() == before,
                        key@ == text::text_key(name@),
                        forall|k: int|
                            i <= k < before.len() ==> order::lex_lt(
                                key@,
                                text::text_key((#[trigger] before[k]).0@),
                            ),
                        forall|k: int| 0 <= k < before.len() ==> (#[trigger] before[k]).0@ != name@,
                    ensures
                        i <= self.entries.len(),
                        forall|k: int|
                            i <= k < before.len() ==> order::lex_lt(
                                key@,
                                text::text_key((#[trigger] before[k]).0@),
                            ),
                        i > 0 ==> order::lex_le(text::text_key(before[i - 1].0@), key@),
                    decreases i,
                {
                    let prev = key_of(&self.entries[i - 1].0);
                    if key_le(&prev, &key) {
                        break;
                    }
                    i = i - 1;
                }
                std::mem::swap(&mut entries, &mut self.entries);
                entries.insert(i, (name, value));
                proof {
                    assert(entries@ =~= before.insert(i as int, e));
                    assert forall|k: Seq<char>| #[trigger]
                        lookup(entries@, k) == (if k == name@ {
                            Some(value)
                        } else {
                            lookup(before, k)
                        }) by {
                        lemma_lookup_insert(before, i as int, e, k);
                    }
                    lemma_insert_wf(before, i as int, e);
                }
            },
        }
        self.entries = entries;
    }

    /// A map with the same keys and other values.
    pub fn with_values<W>(&self, values: Vec<W>) -> (r: SortedMap<W>)
        requires
            values@.len() == self.entries().len(),
        ensures
            r.keys() == self.keys(),
            r.wf(),
            forall|i: int|
                0 <= i < values@.len() ==> (#[trigger] r.entries()[i]).1 == values@[i],
    {
        proof {
            use_type_invariant(self);
        }
        let ghost values0 = values@;
        let mut rest = values;
        let mut entries: Vec<(String, W)> = Vec::new();
        let mut i: usize = self.entries.len();
        while i > 0
            invariant
                i <= self.entries@.len(),
                rest@ == values0.take(i as int),
                values0.len() == self.entries@.len(),
                entries@.len() == values0.len() - i,
                forall|x: int|
                    0 <= x < entries@.len() ==> (#[trigger] entries@[x]).0@ == self.entries@[i
                        + x].0@ && entries@[x].1 == values0[i + x],
            decreases i,
        {
            i = i - 1;
            let value = rest.pop().unwrap();
            let ghost before = entries@;
            entries.insert(0, (self.entries[i].0.clone(), value));
            proof {
                assert(rest@ =~= values0.take(i as int));
                assert forall|x: int| 0 <= x < entries@.len() implies (#[trigger] entries@[x]).0@
                    == self.entries@[i + x].0@ && entries@[x].1 == values0[i + x] by {
                    if x > 0 {
                        assert(entries@[x] == before[x - 1]);
                    }
                }
            }
        }
        assert(increasing(entries@)) by {
            assert forall|a: int, b: int| 0 <= a < b < entries@.len() implies order::lex_lt(
                text::text_key((#[trigger] entries@[a]).0@),
                text::text_key((#[trigger] entries@[b]).0@),
            ) by {
                assert(order::lex_lt(
                    text::text_key(self.entries()[a].0@),
                    text::text_key(self.entries()[b].0@),
                ));
            }
        }
        let r = SortedMap { entries };
        assert(r.keys() =~= self.keys());
        r
    }
}

proof fn lemma_insert_wf<V>(s: Seq<(String, V)>, i: int, e: (String, V))
    requires
        0 <= i <= s.len(),
        forall|a: int, b: int|
            0 <= a < b < s.len() ==> order::lex_lt(
                text::text_key((#[trigger] s[a]).0@),
                text::text_key((#[trigger] s[b]).0@),
            ),
        forall|k: int| 0 <= k < s.len() ==> (#[trigger] s[k]).0@ != e.0@,
        forall|k: int|
            i <= k < s.len() ==> order::lex_lt(
                text::text_key(e.0@),
                text::text_key((#[trigger] s[k]).0@),
            ),
        i > 0 ==> order::lex_le(text::text_key(s[i - 1].0@), text::text_key(e.0@)),
    ensures
        forall|a: int, b: int|
            0 <= a < b < s.len() + 1 ==> order::lex_lt(
                text::text_key((#[trigger] s.insert(i, e)[a]).0@),
                text::text_key((#[trigger] s.insert(i, e)[b]).0@),
            ),
{
    let u = s.insert(i, e);
    let ek = text::text_key(e.0@);
    assert forall|a: int| 0 <= a < i implies order::lex_lt(
        text::text_key((#[trigger] s[a]).0@),
        ek,
    ) by {
        let ak = text::text_key(s[a].0@);
        let pk = text::text_key(s[i - 1].0@);
        if order::lex_le(ek, ak) {
            if a < i - 1 {
                order::lemma_lex_trans(pk, ek, ak);
            } else {
                order::lemma_lex_antisym(ek, ak);
                text::lemma_text_key_injective(e.0@, s[a].0@);
            }
        }
    }
    assert forall|a: int, b: int| 0 <= a < b < u.len() implies order::lex_lt(
        text::text_key((#[trigger] u[a]).0@),
        text::text_key((#[trigger] u[b]).0@),
    ) by {
        if b < i {
            assert(u[a] == s[a] && u[b] == s[b]);
        } else if b == i {
            assert(u[a] == s[a] && u[b] == e);
        } else if a < i {
            assert(u[a] == s[a] && u[b] == s[b - 1]);
        } else if a == i {
            assert(u[a] == e && u[b] == s[b - 1]);
        } else {
            assert(u[a] == s[a - 1] && u[b] == s[b - 1]);
        }
    }
}

} // verus!
