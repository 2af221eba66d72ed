//! Package versions, their order and their text.

use vstd::prelude::*;
use vstd::string::*;
use crate::order::Keyed;
use crate::text;
use crate::text::{
    clone_opt_text, clone_texts, join_texts, opt_text_eq, push_decimal, push_opt_text_key, push_text_key,
    text_eq, texts_eq,
};

verus! {

/// A semantic version. `pre` and `build` hold the dot-separated identifiers of
/// the pre-release and of the build metadata.
#[derive(Debug, PartialEq, Eq)]
pub struct Version {
    pub major: u64,
    pub minor: u64,
    pub patch: u64,
    pub pre: Vec<String>,
    pub build: Vec<String>,
}

/// A version of a package: a semantic version, with a revision if the package
/// comes from a git repository.
#[derive(Debug, PartialEq, Eq)]
pub struct VetVersion {
    pub semver: Version,
    pub git_rev: Option<String>,
}

/// The contents of a [`Version`].
#[verifier::ext_equal]
pub struct VersionView {
    pub major: u64,
    pub minor: u64,
    pub patch: u64,
    pub pre: Seq<Seq<char>>,
    pub build: Seq<Seq<char>>,
}

/// The contents of a [`VetVersion`].
#[verifier::ext_equal]
pub struct VetVersionView {
    pub semver: VersionView,
    pub git_rev: Option<Seq<char>>,
}

impl View for Version {
    type V = VersionView;

    open spec fn view(&self) -> VersionView {
        VersionView {
            major: self.major,
            minor: self.minor,
            patch: self.patch,
            pre: text::texts(self.pre@),
            build: text::texts(self.build@),
        }
    }
}

impl View for VetVersion {
    type V = VetVersionView;

    open spec fn view(&self) -> VetVersionView {
        VetVersionView { semver: self.semver@, git_rev: text::opt_text(self.git_rev) }
    }
}

/// Whether every character is a decimal digit.
pub open spec fn is_number(s: Seq<char>) -> bool {
    forall|i: int| 0 <= i < s.len() ==> '0' <= #[trigger] s[i] <= '9'
}

/// `s` without its leading zeros.
pub open spec fn strip_zeros(s: Seq<char>) -> Seq<char>
    decreases s.len(),
{
    if s.len() > 0 && s[0] == '0' {
        strip_zeros(s.drop_first())
    } else {
        s
    }
}

/// The key of one pre-release identifier: numbers come first, by value, then
/// the other identifiers by their characters.
pub open spec fn pre_identifier_key(s: Seq<char>) -> Seq<u64> {
    if is_number(s) {
        seq![0u64, s.len() as u64] + text::text_key(s)
    } else {
        seq![1u64] + text::text_key(s)
    }
}

/// The key of one identifier of the build metadata: numbers come first, by
/// value and then by length, then the other identifiers by their characters.
pub open spec fn build_identifier_key(s: Seq<char>) -> Seq<u64> {
    if is_number(s) {
        seq![0u64, strip_zeros(s).len() as u64] + text::text_key(strip_zeros(s)) + seq![s.len() as u64]
    } else {
        seq![1u64] + text::text_key(s)
    }
}

/// The key of a list of pre-release identifiers; a prefix comes first.
pub open spec fn pre_identifiers_key(v: Seq<Seq<char>>) -> Seq<u64>
    decreases v.len(),
{
    if v.len() == 0 {
        seq![0u64]
    } else {
        seq![1u64] + pre_identifier_key(v[0]) + pre_identifiers_key(v.drop_first())
    }
}

/// The key of the build metadata; a prefix comes first.
pub open spec fn build_key(v: Seq<Seq<char>>) -> Seq<u64>
    decreases v.len(),
{
    if v.len() == 0 {
        seq![0u64]
    } else {
        seq![1u64] + build_identifier_key(v[0]) + build_key(v.drop_first())
    }
}

/// The key of a pre-release: a version without one comes after those with one.
pub open spec fn pre_key(v: Seq<Seq<char>>) -> Seq<u64> {
    if v.len() == 0 {
        seq![1u64]
    } else {
        seq![0u64] + pre_identifiers_key(v)
    }
}

/// The key that orders semantic versions by precedence, and versions of equal
/// precedence by their build metadata.
pub open spec fn version_key(v: VersionView) -> Seq<u64> {
    seq![v.major, v.minor, v.patch] + pre_key(v.pre) + build_key(v.build)
}

/// The key that orders versions, with a published version before the git
/// revisions of the same semantic version.
pub open spec fn vet_version_key(v: VetVersionView) -> Seq<u64> {
    version_key(v.semver) + text::opt_text_key(v.git_rev)
}

/// The key that orders optional versions, with `None` first.
pub open spec fn node_key(v: Option<VetVersionView>) -> Seq<u64> {
    match v {
        None => seq![0u64],
        Some(v) => seq![1u64] + vet_version_key(v),
    }
}

/// The contents of an optional version.
pub open spec fn node(v: Option<VetVersion>) -> Option<VetVersionView> {
    match v {
        Some(v) => Some(v@),
        None => None,
    }
}

/// The contents of an optional reference to a version.
pub open spec fn node_ref(v: Option<&VetVersion>) -> Option<VetVersionView> {
    match v {
        Some(v) => Some(v@),
        None => None,
    }
}

fn number_text(s: &str) -> (r: bool)
    ensures
        r == is_number(s@),
{
    let n: usize = s.unicode_len();
    let mut i: usize = 0;
    while i < n
        invariant
            i <= n,
            n == s@.len(),
            forall|k: int| 0 <= k < i ==> '0' <= #[trigger] s@[k] <= '9',
        decreases n - i,
    {
        let c: char = s.get_char(i);
        if c < '0' || c > '9' {
            return false;
        }
        i = i + 1;
    }
    true
}

fn push_pre_identifier_key(s: &str, out: &mut Vec<u64>)
    ensures
        final(out)@ == old(out)@ + pre_identifier_key(s@),
{
    let ghost start = out@;
    if number_text(s) {
        out.push(0);
        out.push(s.unicode_len() as u64);
    } else {
        out.push(1);
    }
    push_text_key(s, out);
    assert(out@ =~= start + pre_identifier_key(s@));
}

proof fn lemma_strip_zeros_skip(s: Seq<char>, i: int)
    requires
        0 <= i <= s.len(),
        forall|k: int| 0 <= k < i ==> #[trigger] s[k] == '0',
        i < s.len() ==> s[i] != '0',
    ensures
        strip_zeros(s) == s.skip(i),
    decreases i,
{
    if i > 0 {
        assert(s[0] == '0');
        assert forall|k: int| 0 <= k < i - 1 implies #[trigger] s.drop_first()[k] == '0' by {
            assert(s[k + 1] == '0');
        }
        lemma_strip_zeros_skip(s.drop_first(), i - 1);
        assert(s.drop_first().skip(i - 1) =~= s.skip(i));
    } else {
        assert(s.skip(0) =~= s);
    }
}

fn push_build_identifier_key(s: &str, out: &mut Vec<u64>)
    ensures
        final(out)@ == old(out)@ + build_identifier_key(s@),
{
    let ghost start = out@;
    if !number_text(s) {
        out.push(1);
        push_text_key(s, out);
        assert(out@ =~= start + build_identifier_key(s@));
        return;
    }
    let n: usize = s.unicode_len();
    let mut i: usize = 0;
    while i < n && s.get_char(i) == '0'
        invariant
            i <= n,
            n == s@.len(),
            forall|k: int| 0 <= k < i ==> #[trigger] s@[k] == '0',
        decreases n - i,
    {
        i = i + 1;
    }
    proof {
        lemma_strip_zeros_skip(s@, i as int);
        assert(s@.skip(i as int) =~= s@.subrange(i as int, n as int));
    }
    out.push(0);
    out.push((n - i) as u64);
    push_text_key(s.substring_char(i, n), out);
    out.push(n as u64);
    assert(out@ =~= start + build_identifier_key(s@));
}

fn push_pre_key(v: &Vec<String>, out: &mut Vec<u64>)
    ensures
        final(out)@ == old(out)@ + pre_key(text::texts(v@)),
{
    let ghost start = out@;
    let ghost t = text::texts(v@);
    if v.len() == 0 {
        out.push(1);
        assert(out@ =~= start + pre_key(t));
        return;
    }
    out.push(0);
    let mut i: usize = 0;
    proof {
        assert(t.skip(0) =~= t);
        assert(start + pre_key(t) =~= out@ + pre_identifiers_key(t.skip(0)));
    }
    while i < v.len()
        invariant
            i <= v.len(),
            t == text::texts(v@),
            start + pre_key(t) == out@ + pre_identifiers_key(t.skip(i as int)),
        decreases v.len() - i,
    {
        let ghost before = out@;
        out.push(1);
        push_pre_identifier_key(v[i].as_str(), out);
        proof {
            assert(t.skip(i as int)[0] == t[i as int]);
            assert(t.skip(i as int).drop_first() =~= t.skip(i + 1));
            assert(before + pre_identifiers_key(t.skip(i as int)) =~= out@ + pre_identifiers_key(
                t.skip(i + 1),
            ));
        }
        i = i + 1;
    }
    out.push(0);
    assert(t.skip(i as int).len() == 0);
}

fn push_build_key(v: &Vec<String>, out: &mut Vec<u64>)
    ensures
        final(out)@ == old(out)@ + build_key(text::texts(v@)),
{
    let ghost start = out@;
    let ghost t = text::texts(v@);
    let mut i: usize = 0;
    proof {
        assert(t.skip(0) =~= t);
    }
    while i < v.len()
        invariant
            i <= v.len(),
            t == text::texts(v@),
            start + build_key(t) == out@ + build_key(t.skip(i as int)),
        decreases v.len() - i,
    {
        let ghost before = out@;
        out.push(1);
        push_build_identifier_key(v[i].as_str(), out);
        proof {
            assert(t.skip(i as int)[0] == t[i as int]);
            assert(t.skip(i as int).drop_first() =~= t.skip(i + 1));
            assert(before + build_key(t.skip(i as int)) =~= out@ + build_key(t.skip(i + 1)));
        }
        i = i + 1;
    }
    out.push(0);
    assert(t.skip(i as int).len() == 0);
}

impl Keyed for Version {
    open spec fn sort_key(&self) -> Seq<u64> {
        version_key(self@)
    }

    fn push_key(&self, out: &mut Vec<u64>) {
        let ghost start = out@;
        out.push(self.major);
        out.push(self.minor);
        out.push(self.patch);
        push_pre_key(&self.pre, out);
        push_build_key(&self.build, out);
        assert(self.sort_key() == version_key(self@));
        assert(out@ =~= start + version_key(self@));
    }
}

impl Keyed for VetVersion {
    open spec fn sort_key(&self) -> Seq<u64> {
        vet_version_key(self@)
    }

    fn push_key(&self, out: &mut Vec<u64>) {
        let ghost start = out@;
        self.semver.push_key(out);
        push_opt_text_key(&self.git_rev, out);
        assert(self.sort_key() == vet_version_key(self@));
        assert(out@ =~= start + vet_version_key(self@));
    }
}

impl Keyed for Option<VetVersion> {
    open spec fn sort_key(&self) -> Seq<u64> {
        node_key(node(*self))
    }

    fn push_key(&self, out: &mut Vec<u64>) {
        let ghost start = out@;
        match self {
            None => {
                out.push(0);
            },
            Some(v) => {
                out.push(1);
                v.push_key(out);
            },
        }
        assert(out@ =~= start + node_key(node(*self)));
    }
}

impl Clone for Version {
    fn clone(&self) -> (r: Version)
        ensures
            r@ == self@,
    {
        Version {
            major: self.major,
            minor: self.minor,
            patch: self.patch,
            pre: clone_texts(&self.pre),
            build: clone_texts(&self.build),
        }
    }
}

impl Clone for VetVersion {
    fn clone(&self) -> (r: VetVersion)
        ensures
            r@ == self@,
    {
        VetVersion { semver: self.semver.clone(), git_rev: clone_opt_text(&self.git_rev) }
    }
}

/// Copies an optional version.
pub fn clone_node(v: &Option<VetVersion>) -> (r: Option<VetVersion>)
    ensures
        node(r) == node(*v),
{
    match v {
        Some(v) => Some(v.clone()),
        None => None,
    }
}

/// Whether two semantic versions are the same.
pub fn semver_eq(a: &Version, b: &Version) -> (r: bool)
    ensures
        r == (a@ == b@),
{
    a.major == b.major && a.minor == b.minor && a.patch == b.patch && texts_eq(&a.pre, &b.pre)
        && texts_eq(&a.build, &b.build)
}

/// Whether two versions are the same.
pub fn version_eq(a: &VetVersion, b: &VetVersion) -> (r: bool)
    ensures
        r == (a@ == b@),
{
    semver_eq(&a.semver, &b.semver) && opt_text_eq(&a.git_rev, &b.git_rev)
}

/// Whether two optional versions are the same.
pub fn node_eq(a: &Option<VetVersion>, b: &Option<VetVersion>) -> (r: bool)
    ensures
        r == (node(*a) == node(*b)),
{
    match (a, b) {
        (Some(x), Some(y)) => version_eq(x, y),
        (None, None) => true,
        _ => false,
    }
}

/// The text of a semantic version.
pub open spec fn semver_text(v: VersionView) -> Seq<char> {
    text::decimal(v.major as nat) + "."@ + text::decimal(v.minor as nat) + "."@ + text::decimal(v.patch as nat) + (
    if v.pre.len() > 0 {
        "-"@ + text::join(v.pre, "."@)
    } else {
        Seq::empty()
    }) + (if v.build.len() > 0 {
        "+"@ + text::join(v.build, "."@)
    } else {
        Seq::empty()
    })
}

/// The text of a version: the semantic version and, for a git revision, the
/// revision behind `@git:`.
pub open spec fn version_text(v: VetVersionView) -> Seq<char> {
    semver_text(v.semver) + (match v.git_rev {
        Some(rev) => "@git:"@ + rev,
        None => Seq::empty(),
    })
}

impl Version {
    /// Writes the version as text.
    pub fn to_text(&self) -> (r: String)
        ensures
            r@ == semver_text(self@),
    {
        let mut r: String = String::new();
        push_decimal(&mut r, self.major);
        r.append(".");
        push_decimal(&mut r, self.minor);
        r.append(".");
        push_decimal(&mut r, self.patch);
        if self.pre.len() > 0 {
            r.append("-");
            r.append(join_texts(&self.pre, ".").as_str());
        }
        if self.build.len() > 0 {
            r.append("+");
            r.append(join_texts(&self.build, ".").as_str());
        }
        assert(r@ =~= semver_text(self@));
        r
    }
}

impl VetVersion {
    /// The semantic version, unless this is a git revision.
    pub fn as_semver(&self) -> (r: Option<&Version>)
        ensures
            r == (if self.git_rev is None {
                Some(&self.semver)
            } else {
                None
            }),
    {
        if self.git_rev.is_none() {
            Some(&self.semver)
        } else {
            None
        }
    }

    /// Writes the version as text.
    pub fn to_text(&self) -> (r: String)
        ensures
            r@ == version_text(self@),
    {
        let mut r: String = self.semver.to_text();
        match &self.git_rev {
            Some(rev) => {
                r.append("@git:");
                r.append(rev.as_str());
            },
            None => {},
        }
        assert(r@ =~= version_text(self@));
        r
    }
}

/// Whether a text can be an identifier: letters, digits and hyphens.
pub open spec fn identifier_ok(s: Seq<char>) -> bool {
    s.len() > 0 && forall|i: int|
        0 <= i < s.len() ==> 'a' <= #[trigger] s[i] <= 'z' || 'A' <= s[i] <= 'Z' || '0' <= s[i] <= '9'
            || s[i] == '-'
}

/// Whether the identifiers of a version are those of a semantic version. A number
/// of a pre-release has no leading zeros.
pub open spec fn semver_ok(v: VersionView) -> bool {
    &&& forall|k: int|
        0 <= k < v.pre.len() ==> identifier_ok(#[trigger] v.pre[k]) && (is_number(v.pre[k])
            && v.pre[k].len() > 1 ==> v.pre[k][0] != '0')
    &&& forall|k: int| 0 <= k < v.build.len() ==> identifier_ok(#[trigger] v.build[k])
}

/// The contents of an optional semantic version.
pub open spec fn opt_semver(v: Option<Version>) -> Option<VersionView> {
    match v {
        Some(v) => Some(v@),
        None => None,
    }
}

/// The semantic version that a text gives, if it gives one.
pub uninterp spec fn parsed_semver(s: Seq<char>) -> Option<VersionView>;

/// Calls `Version::parse` of `semver`, which `guppy` hands on, and takes the
/// identifiers of the pre-release and build parts apart. What comes back depends
/// on the text alone. The text of a semantic version gives that version; which
/// other texts give none is left to `semver`.
#[verifier::external_body]
fn parse_semver(s: &str) -> (r: Option<Version>)
    ensures
        opt_semver(r) == parsed_semver(s@),
        forall|v: VersionView| #[trigger]
            semver_text(v) == s@ && semver_ok(v) ==> opt_semver(r) == Some(v),
{
    let v = guppy::Version::parse(s).ok()?;
    Some(Version {
        major: v.major,
        minor: v.minor,
        patch: v.patch,
        pre: v.pre.split_terminator('.').map(|s| s.to_owned()).collect(),
        build: v.build.split_terminator('.').map(|s| s.to_owned()).collect(),
    })
}

/// The position of the first `@` of a text, or its length.
pub open spec fn at_position(s: Seq<char>) -> int
    decreases s.len(),
{
    if s.len() == 0 || s[0] == '@' {
        0
    } else {
        1 + at_position(s.drop_first())
    }
}

/// The version that a text gives: a semantic version, alone or with a revision
/// behind `@git:`.
pub open spec fn parsed_version(s: Seq<char>) -> Option<VetVersionView> {
    let k = at_position(s);
    match parsed_semver(s.take(k)) {
        Some(semver) => if k == s.len() {
            Some(VetVersionView { semver, git_rev: None })
        } else if s.len() >= k + 5 && s.subrange(k, k + 5) == "@git:"@ {
            Some(VetVersionView { semver, git_rev: Some(s.skip(k + 5)) })
        } else {
            None
        },
        None => None,
    }
}

/// Whether a text holds no `@`.
spec fn is_plain(s: Seq<char>) -> bool {
    forall|i: int| 0 <= i < s.len() ==> #[trigger] s[i] != '@'
}

proof fn lemma_decimal_plain(n: nat)
    ensures
        is_plain(text::decimal(n)),
    decreases n,
{
    if n >= 10 {
        lemma_decimal_plain(n / 10);
    }
}

proof fn lemma_join_plain(items: Seq<Seq<char>>)
    requires
        forall|k: int| 0 <= k < items.len() ==> identifier_ok(#[trigger] items[k]),
    ensures
        is_plain(text::join(items, "."@)),
    decreases items.len(),
{
    reveal_strlit(".");
    if items.len() > 1 {
        lemma_join_plain(items.drop_last());
    }
}

proof fn lemma_semver_plain(v: VersionView)
    requires
        semver_ok(v),
    ensures
        is_plain(semver_text(v)),
{
    reveal_strlit(".");
    reveal_strlit("-");
    reveal_strlit("+");
    lemma_decimal_plain(v.major as nat);
    lemma_decimal_plain(v.minor as nat);
    lemma_decimal_plain(v.patch as nat);
    lemma_join_plain(v.pre);
    lemma_join_plain(v.build);
}

proof fn lemma_at_position(s: Seq<char>, k: int)
    requires
        0 <= k <= s.len(),
        is_plain(s.take(k)),
        k == s.len() || s[k] == '@',
    ensures
        at_position(s) == k,
    decreases k,
{
    if k > 0 {
        assert(s.take(k)[0] == s[0]);
        let t = s.drop_first();
        assert forall|i: int| 0 <= i < t.take(k - 1).len() implies #[trigger] t.take(k - 1)[i]
            != '@' by {
            assert(s.take(k)[i + 1] == t.take(k - 1)[i]);
        }
        lemma_at_position(t, k - 1);
    }
}

impl VetVersion {
    /// Reads a version from text. What [`VetVersion::to_text`] writes gives the
    /// same version again.
    pub fn parse(s: &str) -> (r: Option<VetVersion>)
        ensures
            node(r) == parsed_version(s@),
            forall|v: VetVersionView| #[trigger]
                version_text(v) == s@ && semver_ok(v.semver) ==> node(r) == Some(v),
    {
        let n: usize = s.unicode_len();
        let mut k: usize = 0;
        while k < n && s.get_char(k) != '@'
            invariant
                k <= n,
                n == s@.len(),
                is_plain(s@.take(k as int)),
            decreases n - k,
        {
            assert(s@.take(k + 1) =~= s@.take(k as int).push(s@[k as int]));
            k = k + 1;
        }
        let front = s.substring_char(0, k);
        proof {
            reveal_strlit("@git:");
            lemma_at_position(s@, k as int);
            assert(front@ =~= s@.take(k as int));
            assert forall|v: VetVersionView| #[trigger]
                version_text(v) == s@ && semver_ok(v.semver) implies semver_text(v.semver)
                == front@ && (match v.git_rev {
                Some(rev) => k + 5 <= n && s@.subrange(k as int, k + 5) == "@git:"@ && rev
                    == s@.skip(k + 5),
                None => k == n,
            }) by {
                let t = semver_text(v.semver);
                lemma_semver_plain(v.semver);
                assert(s@.take(t.len() as int) =~= t);
                lemma_at_position(s@, t.len() as int);
                if v.git_rev is Some {
                    assert(s@.subrange(k as int, k + 5) =~= "@git:"@);
                    assert(s@.skip(k + 5) =~= v.git_rev->0);
                }
            }
        }
        let semver = parse_semver(front)?;
        if k == n {
            return Some(VetVersion { semver, git_rev: None });
        }
        if n - k < 5 || !text_eq(s.substring_char(k, k + 5), "@git:") {
            return None;
        }
        let rev = s.substring_char(k + 5, n);
        assert(rev@ =~= s@.skip(k + 5));
        Some(VetVersion { semver, git_rev: Some(rev.to_owned()) })
    }
}

} // verus!
