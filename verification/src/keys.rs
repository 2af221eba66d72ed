//! Sort keys tell values apart.

use vstd::prelude::*;
use crate::order;
use crate::records;
use crate::records::UnpublishedEntryView;
use crate::retain;
use crate::text;
use crate::version;
use crate::version::{VersionView, VetVersionView};

verus! {

/// The key of a text can be told from what follows it.
pub proof fn lemma_text_key_splits(a: Seq<char>, b: Seq<char>, x: Seq<u64>, y: Seq<u64>)
    requires
        text::text_key(a) + x == text::text_key(b) + y,
    ensures
        a == b,
        x == y,
    decreases a.len(),
{
    let l = text::text_key(a) + x;
    let r = text::text_key(b) + y;
    assert(l[0] == r[0]);
    if a.len() == 0 {
        assert(l[0] == 0);
        if b.len() > 0 {
            assert(r[0] == text::char_key(b[0]));
            text::lemma_char_key(b[0], b[0]);
        }
        assert(x =~= l.drop_first());
        assert(y =~= r.drop_first());
        assert(a =~= b);
    } else {
        assert(l[0] == text::char_key(a[0]));
        text::lemma_char_key(a[0], a[0]);
        if b.len() == 0 {
            assert(r[0] == 0);
        }
        assert(r[0] == text::char_key(b[0]));
        text::lemma_char_key(a[0], b[0]);
        assert(l.drop_first() =~= text::text_key(a.drop_first()) + x);
        assert(r.drop_first() =~= text::text_key(b.drop_first()) + y);
        lemma_text_key_splits(a.drop_first(), b.drop_first(), x, y);
        assert(a =~= seq![a[0]] + a.drop_first());
        assert(b =~= seq![b[0]] + b.drop_first());
    }
}

proof fn lemma_opt_text_key_splits(
    a: Option<Seq<char>>,
    b: Option<Seq<char>>,
    x: Seq<u64>,
    y: Seq<u64>,
)
    requires
        text::opt_text_key(a) + x == text::opt_text_key(b) + y,
    ensures
        a == b,
        x == y,
{
    let l = text::opt_text_key(a) + x;
    let r = text::opt_text_key(b) + y;
    assert(l[0] == r[0]);
    match (a, b) {
        (None, None) => {
            assert(x =~= l.drop_first());
            assert(y =~= r.drop_first());
        },
        (Some(s), Some(t)) => {
            assert(l.drop_first() =~= text::text_key(s) + x);
            assert(r.drop_first() =~= text::text_key(t) + y);
            lemma_text_key_splits(s, t, x, y);
        },
        _ => {},
    }
}

proof fn lemma_pre_identifier_splits(a: Seq<char>, b: Seq<char>, x: Seq<u64>, y: Seq<u64>)
    requires
        version::pre_identifier_key(a) + x == version::pre_identifier_key(b) + y,
    ensures
        a == b,
        x == y,
{
    let l = version::pre_identifier_key(a) + x;
    let r = version::pre_identifier_key(b) + y;
    assert(l[0] == r[0]);
    let n: int = if version::is_number(a) {
        2
    } else {
        1
    };
    assert(l.skip(n) =~= text::text_key(a) + x);
    assert(r.skip(n) =~= text::text_key(b) + y);
    lemma_text_key_splits(a, b, x, y);
}

proof fn lemma_pre_identifiers_split(
    a: Seq<Seq<char>>,
    b: Seq<Seq<char>>,
    x: Seq<u64>,
    y: Seq<u64>,
)
    requires
        version::pre_identifiers_key(a) + x == version::pre_identifiers_key(b) + y,
    ensures
        a == b,
        x == y,
    decreases a.len(),
{
    let l = version::pre_identifiers_key(a) + x;
    let r = version::pre_identifiers_key(b) + y;
    assert(l[0] == r[0]);
    if a.len() == 0 {
        assert(b.len() == 0);
        assert(x =~= l.drop_first());
        assert(y =~= r.drop_first());
        assert(a =~= b);
    } else {
        assert(b.len() > 0);
        let p = version::pre_identifiers_key(a.drop_first()) + x;
        let q = version::pre_identifiers_key(b.drop_first()) + y;
        assert(l.drop_first() =~= version::pre_identifier_key(a[0]) + p);
        assert(r.drop_first() =~= version::pre_identifier_key(b[0]) + q);
        lemma_pre_identifier_splits(a[0], b[0], p, q);
        lemma_pre_identifiers_split(a.drop_first(), b.drop_first(), x, y);
        assert(a =~= seq![a[0]] + a.drop_first());
        assert(b =~= seq![b[0]] + b.drop_first());
    }
}

proof fn lemma_pre_key_splits(a: Seq<Seq<char>>, b: Seq<Seq<char>>, x: Seq<u64>, y: Seq<u64>)
    requires
        version::pre_key(a) + x == version::pre_key(b) + y,
    ensures
        a == b,
        x == y,
{
    let l = version::pre_key(a) + x;
    let r = version::pre_key(b) + y;
    assert(l[0] == r[0]);
    if a.len() == 0 {
        assert(x =~= l.drop_first());
        assert(y =~= r.drop_first());
        assert(a =~= b);
    } else {
        assert(l.drop_first() =~= version::pre_identifiers_key(a) + x);
        assert(r.drop_first() =~= version::pre_identifiers_key(b) + y);
        lemma_pre_identifiers_split(a, b, x, y);
    }
}

proof fn lemma_strip_len(s: Seq<char>)
    ensures
        version::strip_zeros(s).len() <= s.len(),
    decreases s.len(),
{
    if s.len() > 0 && s[0] == '0' {
        lemma_strip_len(s.drop_first());
    }
}

/// A number is known by its value and its length.
proof fn lemma_strip_determines(a: Seq<char>, b: Seq<char>)
    requires
        version::strip_zeros(a) == version::strip_zeros(b),
        a.len() == b.len(),
    ensures
        a == b,
    decreases a.len(),
{
    lemma_strip_len(a);
    lemma_strip_len(b);
    let zero_a = a.len() > 0 && a[0] == '0';
    let zero_b = b.len() > 0 && b[0] == '0';
    if zero_a {
        lemma_strip_len(a.drop_first());
    }
    if zero_b {
        lemma_strip_len(b.drop_first());
    }
    if zero_a && zero_b {
        lemma_strip_determines(a.drop_first(), b.drop_first());
        assert(a =~= seq![a[0]] + a.drop_first());
        assert(b =~= seq![b[0]] + b.drop_first());
    }
}

proof fn lemma_build_identifier_splits(a: Seq<char>, b: Seq<char>, x: Seq<u64>, y: Seq<u64>)
    requires
        version::build_identifier_key(a) + x == version::build_identifier_key(b) + y,
        a.len() <= u64::MAX,
        b.len() <= u64::MAX,
    ensures
        a == b,
        x == y,
{
    let l = version::build_identifier_key(a) + x;
    let r = version::build_identifier_key(b) + y;
    assert(l[0] == r[0]);
    if version::is_number(a) {
        assert(version::is_number(b));
        let s = version::strip_zeros(a);
        let t = version::strip_zeros(b);
        let p = seq![a.len() as u64] + x;
        let q = seq![b.len() as u64] + y;
        assert(l.skip(2) =~= text::text_key(s) + p);
        assert(r.skip(2) =~= text::text_key(t) + q);
        lemma_text_key_splits(s, t, p, q);
        assert(p[0] == q[0]);
        assert(x =~= p.drop_first());
        assert(y =~= q.drop_first());
        lemma_strip_determines(a, b);
    } else {
        assert(!version::is_number(b));
        assert(l.drop_first() =~= text::text_key(a) + x);
        assert(r.drop_first() =~= text::text_key(b) + y);
        lemma_text_key_splits(a, b, x, y);
    }
}

/// Whether the lengths of texts can be counted.
pub open spec fn are_countable(v: Seq<Seq<char>>) -> bool {
    forall|i: int| 0 <= i < v.len() ==> (#[trigger] v[i]).len() <= u64::MAX
}

proof fn lemma_build_key_splits(a: Seq<Seq<char>>, b: Seq<Seq<char>>, x: Seq<u64>, y: Seq<u64>)
    requires
        version::build_key(a) + x == version::build_key(b) + y,
        are_countable(a),
        are_countable(b),
    ensures
        a == b,
        x == y,
    decreases a.len(),
{
    let l = version::build_key(a) + x;
    let r = version::build_key(b) + y;
    assert(l[0] == r[0]);
    if a.len() == 0 {
        assert(b.len() == 0);
        assert(x =~= l.drop_first());
        assert(y =~= r.drop_first());
        assert(a =~= b);
    } else {
        assert(b.len() > 0);
        let p = version::build_key(a.drop_first()) + x;
        let q = version::build_key(b.drop_first()) + y;
        assert(l.drop_first() =~= version::build_identifier_key(a[0]) + p);
        assert(r.drop_first() =~= version::build_identifier_key(b[0]) + q);
        lemma_build_identifier_splits(a[0], b[0], p, q);
        lemma_build_key_splits(a.drop_first(), b.drop_first(), x, y);
        assert(a =~= seq![a[0]] + a.drop_first());
        assert(b =~= seq![b[0]] + b.drop_first());
    }
}

/// Whether the lengths of the build identifiers of a version can be counted.
pub open spec fn is_countable(v: VersionView) -> bool {
    are_countable(v.build)
}

proof fn lemma_version_key_splits(a: VersionView, b: VersionView, x: Seq<u64>, y: Seq<u64>)
    requires
        version::version_key(a) + x == version::version_key(b) + y,
        is_countable(a),
        is_countable(b),
    ensures
        a == b,
        x == y,
{
    let l = version::version_key(a) + x;
    let r = version::version_key(b) + y;
    assert(l[0] == r[0] && l[1] == r[1] && l[2] == r[2]);
    let p = version::build_key(a.build) + x;
    let q = version::build_key(b.build) + y;
    assert(l.skip(3) =~= version::pre_key(a.pre) + p);
    assert(r.skip(3) =~= version::pre_key(b.pre) + q);
    lemma_pre_key_splits(a.pre, b.pre, p, q);
    lemma_build_key_splits(a.build, b.build, x, y);
}

proof fn lemma_vet_version_key_splits(
    a: VetVersionView,
    b: VetVersionView,
    x: Seq<u64>,
    y: Seq<u64>,
)
    requires
        version::vet_version_key(a) + x == version::vet_version_key(b) + y,
        is_countable(a.semver),
        is_countable(b.semver),
    ensures
        a == b,
        x == y,
{
    let p = text::opt_text_key(a.git_rev) + x;
    let q = text::opt_text_key(b.git_rev) + y;
    assert(version::vet_version_key(a) + x =~= version::version_key(a.semver) + p);
    assert(version::vet_version_key(b) + y =~= version::version_key(b.semver) + q);
    lemma_version_key_splits(a.semver, b.semver, p, q);
    lemma_opt_text_key_splits(a.git_rev, b.git_rev, x, y);
}

/// Of two different versions one comes before the other.
pub proof fn law_versions_are_ordered(a: VetVersionView, b: VetVersionView)
    requires
        is_countable(a.semver),
        is_countable(b.semver),
        order::lex_le(version::vet_version_key(a), version::vet_version_key(b)),
        order::lex_le(version::vet_version_key(b), version::vet_version_key(a)),
    ensures
        a == b,
{
    order::lemma_lex_antisym(version::vet_version_key(a), version::vet_version_key(b));
    let none = Seq::<u64>::empty();
    assert(version::vet_version_key(a) + none == version::vet_version_key(b) + none);
    lemma_vet_version_key_splits(a, b, none, none);
}

/// Whether the versions of an unpublished entry are countable.
pub open spec fn entry_countable(e: UnpublishedEntryView) -> bool {
    is_countable(e.version.semver) && is_countable(e.audited_as.semver)
}

/// Unpublished entries with the same key are the same.
pub proof fn lemma_unpublished_key(a: UnpublishedEntryView, b: UnpublishedEntryView)
    requires
        entry_countable(a),
        entry_countable(b),
        records::unpublished_key(a) == records::unpublished_key(b),
    ensures
        a == b,
{
    let x = seq![records::flag(a.still_unpublished)] + seq![records::flag(a.is_fresh_import)];
    let y = seq![records::flag(b.still_unpublished)] + seq![records::flag(b.is_fresh_import)];
    let p = version::vet_version_key(a.audited_as) + x;
    let q = version::vet_version_key(b.audited_as) + y;
    assert(records::unpublished_key(a) =~= version::vet_version_key(a.version) + p);
    assert(records::unpublished_key(b) =~= version::vet_version_key(b.version) + q);
    lemma_vet_version_key_splits(a.version, b.version, p, q);
    lemma_vet_version_key_splits(a.audited_as, b.audited_as, x, y);
    assert(x[0] == y[0] && x[1] == y[1]);
}

/// Whether the keys of unpublished entries are in order.
pub open spec fn keys_sorted(v: Seq<UnpublishedEntryView>) -> bool {
    forall|i: int, j: int|
        0 <= i < j < v.len() ==> order::lex_le(
            records::unpublished_key(#[trigger] v[i]),
            records::unpublished_key(#[trigger] v[j]),
        )
}

/// Dropping doubles from a sorted list leaves each entry once.
pub proof fn lemma_dedup_once(v: Seq<UnpublishedEntryView>)
    requires
        keys_sorted(v),
        forall|i: int| 0 <= i < v.len() ==> entry_countable(#[trigger] v[i]),
    ensures
        forall|i: int, j: int|
            0 <= i < j < retain::dedup(v).len() ==> (#[trigger] retain::dedup(v)[i]) != (
            #[trigger] retain::dedup(v)[j]),
        forall|i: int| 0 <= i < retain::dedup(v).len() ==> v.contains(#[trigger] retain::dedup(v)[i]),
    decreases v.len(),
{
    let d = retain::dedup(v);
    if v.len() <= 1 {
        assert forall|i: int| 0 <= i < d.len() implies v.contains(#[trigger] d[i]) by {
            assert(v[i] == d[i]);
        }
    } else {
        let t = v.drop_last();
        let rest = retain::dedup(t);
        lemma_dedup_once(t);
        assert forall|i: int| 0 <= i < rest.len() implies v.contains(#[trigger] rest[i]) by {
            let k = choose|k: int| 0 <= k < t.len() && t[k] == rest[i];
            assert(v[k] == rest[i]);
        }
        let last = v.last();
        let prev = v[v.len() - 2];
        if prev != last {
            assert(v[v.len() - 1] == last);
            assert forall|i: int| 0 <= i < rest.len() implies #[trigger] rest[i] != last by {
                if rest[i] == last {
                    let k = choose|k: int| 0 <= k < t.len() && t[k] == rest[i];
                    assert(v[k] == last);
                    if k < v.len() - 2 {
                        assert(order::lex_le(
                            records::unpublished_key(v[k]),
                            records::unpublished_key(v[v.len() - 2]),
                        ));
                        assert(order::lex_le(
                            records::unpublished_key(v[v.len() - 2]),
                            records::unpublished_key(v[v.len() - 1]),
                        ));
                        order::lemma_lex_antisym(
                            records::unpublished_key(prev),
                            records::unpublished_key(last),
                        );
                        lemma_unpublished_key(prev, last);
                    }
                }
            }
        }
    }
}

} // verus!
