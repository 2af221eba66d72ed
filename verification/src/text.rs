//! Strings and lists of strings.

use vstd::prelude::*;
use vstd::string::*;
use crate::order::Keyed;

verus! {

/// The contents of a list of strings.
pub open spec fn texts(v: Seq<String>) -> Seq<Seq<char>> {
    v.map_values(|s: String| s@)
}

/// The contents of an optional string.
pub open spec fn opt_text(o: Option<String>) -> Option<Seq<char>> {
    match o {
        Some(s) => Some(s@),
        None => None,
    }
}

/// The key of one character.
pub open spec fn char_key(c: char) -> u64 {
    (c as u64 + 1) as u64
}

/// Characters with the same key are the same, and no key is zero.
pub proof fn lemma_char_key(a: char, b: char)
    requires
        char_key(a) == char_key(b),
    ensures
        a == b,
        char_key(a) > 0,
{
}

/// The key that orders strings by their characters, also inside a longer key.
pub open spec fn text_key(s: Seq<char>) -> Seq<u64> {
    s.map_values(|c: char| char_key(c)).push(0)
}

/// The key that orders lists of strings item by item.
pub open spec fn texts_key(v: Seq<Seq<char>>) -> Seq<u64>
    decreases v.len(),
{
    if v.len() == 0 {
        seq![0u64]
    } else {
        seq![1u64] + text_key(v[0]) + texts_key(v.drop_first())
    }
}

/// The key that orders optional strings, with an absent one first.
pub open spec fn opt_text_key(o: Option<Seq<char>>) -> Seq<u64> {
    match o {
        None => seq![0u64],
        Some(s) => seq![1u64] + text_key(s),
    }
}

/// Strings with the same key are the same string.
pub proof fn lemma_text_key_injective(a: Seq<char>, b: Seq<char>)
    requires
        text_key(a) == text_key(b),
    ensures
        a == b,
{
    assert(text_key(a).len() == a.len() + 1);
    assert(text_key(b).len() == b.len() + 1);
    assert forall|i: int| 0 <= i < a.len() implies a[i] == b[i] by {
        assert(text_key(a)[i] == char_key(a[i]));
        assert(text_key(b)[i] == char_key(b[i]));
        lemma_char_key(a[i], b[i]);
    }
    assert(a =~= b);
}

/// Appends the key of a string to `out`.
pub fn push_text_key(s: &str, out: &mut Vec<u64>)
    ensures
        final(out)@ == old(out)@ + text_key(s@),
{
    let n: usize = s.unicode_len();
    let mut i: usize = 0;
    let ghost start = out@;
    while i < n
        invariant
            i <= n,
            n == s@.len(),
            out@ == start + s@.take(i as int).map_values(|c: char| char_key(c)),
        decreases n - i,
    {
        let c: char = s.get_char(i);
        out.push(c as u64 + 1);
        i = i + 1;
        assert(out@ =~= start + s@.take(i as int).map_values(|c: char| char_key(c)));
    }
    out.push(0);
    proof {
        assert(s@.take(i as int) =~= s@);
        assert(out@ =~= start + text_key(s@));
    }
}

/// Appends the key of a list of strings to `out`.
pub fn push_texts_key(v: &Vec<String>, out: &mut Vec<u64>)
    ensures
        final(out)@ == old(out)@ + texts_key(texts(v@)),
{
    let mut i: usize = 0;
    let ghost start = out@;
    let ghost t = texts(v@);
    proof {
        assert(t.skip(0) =~= t);
    }
    while i < v.len()
        invariant
            i <= v.len(),
            t == texts(v@),
            start + texts_key(t) == out@ + texts_key(t.skip(i as int)),
        decreases v.len() - i,
    {
        let ghost before = out@;
        out.push(1);
        push_text_key(v[i].as_str(), out);
        proof {
            assert(t.skip(i as int)[0] == t[i as int]);
            assert(t.skip(i as int).drop_first() =~= t.skip(i + 1));
            assert(before + texts_key(t.skip(i as int)) =~= out@ + texts_key(t.skip(i + 1)));
        }
        i = i + 1;
    }
    out.push(0);
    proof {
        assert(t.skip(i as int).len() == 0);
    }
}

/// Appends the key of an optional string to `out`.
pub fn push_opt_text_key(o: &Option<String>, out: &mut Vec<u64>)
    ensures
        final(out)@ == old(out)@ + opt_text_key(opt_text(*o)),
{
    let ghost start = out@;
    match o {
        None => {
            out.push(0);
        },
        Some(s) => {
            out.push(1);
            push_text_key(s.as_str(), out);
        },
    }
    assert(out@ =~= start + opt_text_key(opt_text(*o)));
}

impl Keyed for String {
    open spec fn sort_key(&self) -> Seq<u64> {
        text_key(self@)
    }

    fn push_key(&self, out: &mut Vec<u64>) {
        push_text_key(self.as_str(), out)
    }
}

/// Whether two strings hold the same characters.
pub fn text_eq(a: &str, b: &str) -> (r: bool)
    ensures
        r == (a@ == b@),
{
    let n: usize = a.unicode_len();
    if n != b.unicode_len() {
        return false;
    }
    let mut i: usize = 0;
    while i < n
        invariant
            i <= n,
            n == a@.len(),
            n == b@.len(),
            a@.take(i as int) =~= b@.take(i as int),
        decreases n - i,
    {
        if a.get_char(i) != b.get_char(i) {
            return false;
        }
        i = i + 1;
    }
    proof {
        assert(a@.take(i as int) =~= a@);
        assert(b@.take(i as int) =~= b@);
    }
    true
}

/// Copies a list of strings.
pub fn clone_texts(v: &Vec<String>) -> (r: Vec<String>)
    ensures
        texts(r@) == texts(v@),
        r@.len() == v@.len(),
{
    let mut r: Vec<String> = Vec::new();
    let mut i: usize = 0;
    while i < v.len()
        invariant
            i <= v.len(),
            r@ == v@.take(i as int),
        decreases v.len() - i,
    {
        r.push(v[i].clone());
        i = i + 1;
        assert(r@ =~= v@.take(i as int));
    }
    assert(v@.take(i as int) =~= v@);
    r
}

/// Copies an optional string.
pub fn clone_opt_text(o: &Option<String>) -> (r: Option<String>)
    ensures
        opt_text(r) == opt_text(*o),
{
    match o {
        Some(s) => Some(s.clone()),
        None => None,
    }
}

/// Whether two lists hold the same strings.
pub fn texts_eq(a: &Vec<String>, b: &Vec<String>) -> (r: bool)
    ensures
        r == (texts(a@) == texts(b@)),
{
    if a.len() != b.len() {
        assert(texts(a@).len() != texts(b@).len());
        return false;
    }
    let mut i: usize = 0;
    while i < a.len()
        invariant
            i <= a.len(),
            a.len() == b.len(),
            forall|k: int| 0 <= k < i ==> (#[trigger] a@[k])@ == b@[k]@,
        decreases a.len() - i,
    {
        if !text_eq(a[i].as_str(), b[i].as_str()) {
            assert(texts(a@)[i as int] != texts(b@)[i as int]);
            return false;
        }
        i = i + 1;
    }
    assert(texts(a@) =~= texts(b@));
    true
}

/// Whether two optional strings are the same.
pub fn opt_text_eq(a: &Option<String>, b: &Option<String>) -> (r: bool)
    ensures
        r == (opt_text(*a) == opt_text(*b)),
{
    match (a, b) {
        (Some(x), Some(y)) => text_eq(x.as_str(), y.as_str()),
        (None, None) => true,
        _ => false,
    }
}

/// Whether a list holds a string.
pub fn texts_contain(v: &Vec<String>, s: &str) -> (r: bool)
    ensures
        r == texts(v@).contains(s@),
{
    let mut i: usize = 0;
    while i < v.len()
        invariant
            i <= v.len(),
            forall|k: int| 0 <= k < i ==> (#[trigger] v@[k])@ != s@,
        decreases v.len() - i,
    {
        if text_eq(v[i].as_str(), s) {
            assert(texts(v@)[i as int] == s@);
            return true;
        }
        i = i + 1;
    }
    assert forall|k: int| 0 <= k < texts(v@).len() implies texts(v@)[k] != s@ by {
        assert(v@[k]@ != s@);
    }
    false
}

/// The decimal digit of a number below ten.
pub open spec fn digit(d: nat) -> char {
    if d == 0 {
        '0'
    } else if d == 1 {
        '1'
    } else if d == 2 {
        '2'
    } else if d == 3 {
        '3'
    } else if d == 4 {
        '4'
    } else if d == 5 {
        '5'
    } else if d == 6 {
        '6'
    } else if d == 7 {
        '7'
    } else if d == 8 {
        '8'
    } else {
        '9'
    }
}

/// A number written in decimal.
pub open spec fn decimal(n: nat) -> Seq<char>
    decreases n,
{
    if n < 10 {
        seq![digit(n)]
    } else {
        decimal(n / 10).push(digit(n % 10))
    }
}

/// The items one behind the other, with `sep` between two neighbours.
pub open spec fn join(items: Seq<Seq<char>>, sep: Seq<char>) -> Seq<char>
    decreases items.len(),
{
    if items.len() == 0 {
        Seq::empty()
    } else if items.len() == 1 {
        items[0]
    } else {
        join(items.drop_last(), sep) + sep + items.last()
    }
}

/// `n` copies of `c`.
pub open spec fn repeat(c: char, n: nat) -> Seq<char> {
    Seq::new(n, |i: int| c)
}

/// `s` followed by as many spaces as it takes to reach `width` characters.
pub open spec fn pad(s: Seq<char>, width: nat) -> Seq<char> {
    if s.len() < width {
        s + repeat(' ', (width - s.len()) as nat)
    } else {
        s
    }
}

fn digit_text(d: u64) -> (r: &'static str)
    requires
        d < 10,
    ensures
        r@ == seq![digit(d as nat)],
{
    proof {
        reveal_strlit("0");
        reveal_strlit("1");
        reveal_strlit("2");
        reveal_strlit("3");
        reveal_strlit("4");
        reveal_strlit("5");
        reveal_strlit("6");
        reveal_strlit("7");
        reveal_strlit("8");
        reveal_strlit("9");
    }
    let r: &'static str = if d == 0 {
        "0"
    } else if d == 1 {
        "1"
    } else if d == 2 {
        "2"
    } else if d == 3 {
        "3"
    } else if d == 4 {
        "4"
    } else if d == 5 {
        "5"
    } else if d == 6 {
        "6"
    } else if d == 7 {
        "7"
    } else if d == 8 {
        "8"
    } else {
        "9"
    };
    assert(r@ =~= seq![digit(d as nat)]);
    r
}

/// Appends a number in decimal.
pub fn push_decimal(out: &mut String, n: u64)
    ensures
        final(out)@ == old(out)@ + decimal(n as nat),
    decreases n,
{
    let ghost start = out@;
    if n >= 10 {
        push_decimal(out, n / 10);
    }
    out.append(digit_text(n % 10));
    assert(out@ =~= start + decimal(n as nat));
}

/// Joins strings with a separator.
pub fn join_texts(items: &Vec<String>, sep: &str) -> (r: String)
    ensures
        r@ == join(texts(items@), sep@),
{
    let mut r: String = String::new();
    let mut i: usize = 0;
    let ghost t = texts(items@);
    while i < items.len()
        invariant
            i <= items.len(),
            t == texts(items@),
            r@ == join(t.take(i as int), sep@),
        decreases items.len() - i,
    {
        if i > 0 {
            r.append(sep);
        }
        r.append(items[i].as_str());
        proof {
            let u = t.take(i + 1);
            assert(u.last() == items@[i as int]@);
            assert(u.drop_last() =~= t.take(i as int));
            assert(r@ =~= join(u, sep@));
        }
        i = i + 1;
    }
    assert(t.take(i as int) =~= t);
    r
}

/// Appends `n` spaces.
pub fn push_spaces(out: &mut String, n: usize)
    ensures
        final(out)@ == old(out)@ + repeat(' ', n as nat),
{
    let ghost start = out@;
    let mut i: usize = 0;
    proof {
        reveal_strlit(" ");
        assert(out@ =~= start + repeat(' ', 0));
    }
    while i < n
        invariant
            i <= n,
            " "@ == seq![' '],
            out@ == start + repeat(' ', i as nat),
        decreases n - i,
    {
        out.append(" ");
        i = i + 1;
        assert(out@ =~= start + repeat(' ', i as nat));
    }
}

/// Appends a string, padded with spaces to a width.
pub fn push_padded(out: &mut String, s: &str, width: usize)
    ensures
        final(out)@ == old(out)@ + pad(s@, width as nat),
{
    let ghost start = out@;
    let n: usize = s.unicode_len();
    out.append(s);
    if n < width {
        push_spaces(out, width - n);
    }
    assert(out@ =~= start + pad(s@, width as nat));
}

} // verus!
