//! Reports for people.

use vstd::prelude::*;
use crate::audit_graph::{ViolationConflict, ViolationConflictView};
use crate::criteria;
use crate::criteria::CriteriaMapper;
use crate::delta::{Delta, DeltaView, DiffRecommendation, DiffRecommendationView, DiffStat};
use crate::order;
use crate::order::{sort_positions, Keyed};
use crate::packages::Package;
use crate::records::{
    AuditEntry, AuditEntryView, AuditKind, AuditKindView, ExemptedDependency,
    ExemptedDependencyView,
};
use crate::resolve;
use crate::resolve::{
    AuditFailure, Conclusion, FailForVet, FailForViolationConflict, ResolveReport, Success,
};
use crate::sorted_map;
use crate::suggest::{
    RegistrySuggestion, RegistrySuggestionView, Suggest, SuggestItem, SuggestItemView, TrustHint,
    TrustHintView,
};
use crate::text;
use crate::text::{join_texts, push_decimal, push_padded, push_spaces, push_text_key};
use crate::version;

verus! {

/// How a piece of text is shown.
#[derive(Debug, Clone, Copy, PartialEq, Eq, Structural)]
pub enum Style {
    Plain,
    BoldDim,
    CyanBold,
    Dim,
    DimCyan,
    DimCyanBold,
    Yellow,
}

/// A piece of text.
#[derive(Debug, PartialEq, Eq)]
pub struct Span {
    pub style: Style,
    pub text: String,
}

/// The contents of a [`Span`].
#[verifier::ext_equal]
pub struct SpanView {
    pub style: Style,
    pub text: Seq<char>,
}

impl View for Span {
    type V = SpanView;

    open spec fn view(&self) -> SpanView {
        SpanView { style: self.style, text: self.text@ }
    }
}

/// Text without a style.
pub open spec fn plain(text: Seq<char>) -> SpanView {
    SpanView { style: Style::Plain, text }
}

/// Text with a style.
pub open spec fn styled(style: Style, text: Seq<char>) -> SpanView {
    SpanView { style, text }
}

/// Adds a piece of text.
fn push_span(out: &mut Vec<Span>, style: Style, text: String)
    ensures
        sorted_map::views(final(out)@) == sorted_map::views(old(out)@).push(styled(style, text@)),
{
    let ghost before = out@;
    out.push(Span { style, text });
    assert(sorted_map::views(out@) =~= sorted_map::views(before).push(styled(style, text@)));
}

/// The columns that a text takes in a terminal.
pub uninterp spec fn display_width(text: Seq<char>) -> usize;

/// `console::measure_text_width`: the columns that a text takes in a terminal.
/// What it is depends on the text alone.
#[verifier::external_body]
fn measure(text: &str) -> (r: usize)
    ensures
        r == display_width(text@),
{
    console::measure_text_width(text)
}

/// A list of texts as Rust writes it: quoted, escaped and in brackets.
pub uninterp spec fn debug_texts(items: Seq<Seq<char>>) -> Seq<char>;

/// `Debug` of a list of strings. What it writes depends on the strings alone.
#[verifier::external_body]
fn debug_list(items: &Vec<String>) -> (r: String)
    ensures
        r@ == debug_texts(text::texts(items@)),
{
    format!("{:?}", items)
}

/// How a success is told.
pub open spec fn success_text(full: nat, partial: nat, exempted: nat) -> Seq<char> {
    let parts = count_text(full, " fully audited"@) + count_text(partial, " partially audited"@)
        + count_text(exempted, " exempted"@);
    if parts.len() == 0 {
        "Vetting Succeeded (because you have no third-party dependencies)\n"@
    } else {
        "Vetting Succeeded ("@ + text::join(parts, ", "@) + ")\n"@
    }
}

/// A number and what it counts, unless it is zero.
pub open spec fn count_text(n: nat, what: Seq<char>) -> Seq<Seq<char>> {
    if n == 0 {
        Seq::empty()
    } else {
        seq![text::decimal(n) + what]
    }
}

fn push_count(parts: &mut Vec<String>, n: usize, what: &str)
    ensures
        text::texts(final(parts)@) == text::texts(old(parts)@) + count_text(n as nat, what@),
{
    let ghost before = parts@;
    if n != 0 {
        let mut part: String = String::new();
        push_decimal(&mut part, n as u64);
        part.append(what);
        assert(part@ =~= text::decimal(n as nat) + what@);
        parts.push(part);
    }
    assert(text::texts(parts@) =~= text::texts(before) + count_text(n as nat, what@));
}

impl Success {
    /// Tells how many packages were vetted, and how.
    pub fn print_human(&self) -> (r: String)
        ensures
            r@ == success_text(
                self.vetted_fully@.len(),
                self.vetted_partially@.len(),
                self.vetted_with_exemptions@.len(),
            ),
    {
        let mut parts: Vec<String> = Vec::new();
        push_count(&mut parts, self.vetted_fully.len(), " fully audited");
        push_count(&mut parts, self.vetted_partially.len(), " partially audited");
        push_count(&mut parts, self.vetted_with_exemptions.len(), " exempted");
        assert(text::texts(parts@) =~= count_text(self.vetted_fully@.len(), " fully audited"@)
            + count_text(self.vetted_partially@.len(), " partially audited"@) + count_text(
            self.vetted_with_exemptions@.len(),
            " exempted"@,
        ));
        if parts.len() == 0 {
            return "Vetting Succeeded (because you have no third-party dependencies)\n".to_owned();
        }
        let mut r: String = "Vetting Succeeded (".to_owned();
        r.append(join_texts(&parts, ", ").as_str());
        r.append(")\n");
        r
    }
}

/// A package and its version.
pub open spec fn package_text(package: Package) -> Seq<char> {
    package.name@ + ":"@ + version::version_text(package.version@)
}

/// A package and its version.
pub fn package_to_text(package: &Package) -> (r: String)
    ensures
        r@ == package_text(*package),
{
    let mut r: String = package.name.clone();
    r.append(":");
    r.append(package.version.to_text().as_str());
    r
}

/// Lines that start with a label.
pub open spec fn labelled(label: Seq<char>, value: Seq<char>) -> Seq<char> {
    label + value + "\n"@
}

/// The line of notes, if there are any.
pub open spec fn notes_text(notes: Option<Seq<char>>) -> Seq<char> {
    match notes {
        Some(n) => labelled("      notes: "@, n),
        None => Seq::empty(),
    }
}

/// The line of who made an audit, if that is known.
pub open spec fn who_text(who: Seq<Seq<char>>) -> Seq<char> {
    if who.len() == 0 {
        Seq::empty()
    } else {
        labelled("      who: "@, text::join(who, ", "@))
    }
}

/// How an exemption is told.
pub open spec fn exemption_text(e: ExemptedDependencyView) -> Seq<char> {
    labelled("exemption "@, version::version_text(e.version)) + labelled(
        "      criteria: "@,
        debug_texts(e.criteria),
    ) + notes_text(e.notes)
}

/// What an audit is about.
pub open spec fn kind_text(kind: AuditKindView) -> Seq<char> {
    match kind {
        AuditKindView::Full { version } => labelled("audit "@, version::version_text(version)),
        AuditKindView::Delta { from, to } => labelled(
            "audit "@,
            version::version_text(from) + " -> "@ + version::version_text(to),
        ),
        AuditKindView::Violation { violation } => labelled("violation against "@, violation),
    }
}

/// Whose audit it is.
pub open spec fn source_text(source: Option<Seq<char>>) -> Seq<char> {
    match source {
        None => "own "@,
        Some(name) => "foreign ("@ + name + ") "@,
    }
}

/// How an audit is told.
pub open spec fn entry_text(source: Option<Seq<char>>, e: AuditEntryView) -> Seq<char> {
    source_text(source) + kind_text(e.kind) + labelled(
        "      criteria: "@,
        debug_texts(e.criteria),
    ) + who_text(e.who) + notes_text(e.notes)
}

/// How a conflict is told.
pub open spec fn conflict_text(c: ViolationConflictView) -> Seq<char> {
    match c {
        ViolationConflictView::UnauditedConflict { violation_source, violation, exemptions } =>
            "    the "@ + exemption_text(exemptions) + "    conflicts with "@ + entry_text(
            violation_source,
            violation,
        ) + "\n"@,
        ViolationConflictView::AuditConflict {
            violation_source,
            violation,
            audit_source,
            audit,
        } => "    the "@ + entry_text(audit_source, audit) + "    conflicts with "@ + entry_text(
            violation_source,
            violation,
        ) + "\n"@,
    }
}

/// How the conflicts of a package are told.
pub open spec fn conflicts_text(s: Seq<ViolationConflictView>) -> Seq<char>
    decreases s.len(),
{
    if s.len() == 0 {
        Seq::empty()
    } else {
        conflicts_text(s.drop_last()) + conflict_text(s.last())
    }
}

/// How the packages with conflicts are told.
pub open spec fn violations_text(
    packages: Seq<Package>,
    s: Seq<(usize, Vec<ViolationConflict>)>,
) -> Seq<char>
    decreases s.len(),
{
    if s.len() == 0 {
        "Violations Found!\n"@
    } else {
        violations_text(packages, s.drop_last()) + "  "@ + package_text(
            packages[s.last().0 as int],
        ) + "\n"@ + conflicts_text(sorted_map::views(s.last().1@))
    }
}

fn push_labelled(out: &mut String, label: &str, value: &str)
    ensures
        final(out)@ == old(out)@ + labelled(label@, value@),
{
    let ghost before = out@;
    out.append(label);
    out.append(value);
    out.append("\n");
    assert(out@ =~= before + labelled(label@, value@));
}

fn push_notes(out: &mut String, notes: &Option<String>)
    ensures
        final(out)@ == old(out)@ + notes_text(text::opt_text(*notes)),
{
    let ghost before = out@;
    if let Some(n) = notes {
        push_labelled(out, "      notes: ", n.as_str());
    }
    assert(out@ =~= before + notes_text(text::opt_text(*notes)));
}

fn push_exemption(out: &mut String, e: &ExemptedDependency)
    ensures
        final(out)@ == old(out)@ + exemption_text(e@),
{
    let ghost before = out@;
    push_labelled(out, "exemption ", e.version.to_text().as_str());
    push_labelled(out, "      criteria: ", debug_list(&e.criteria).as_str());
    push_notes(out, &e.notes);
    assert(out@ =~= before + exemption_text(e@));
}

fn push_kind(out: &mut String, kind: &AuditKind)
    ensures
        final(out)@ == old(out)@ + kind_text(kind@),
{
    match kind {
        AuditKind::Full { version } => {
            push_labelled(out, "audit ", version.to_text().as_str());
        },
        AuditKind::Delta { from, to } => {
            let mut t: String = from.to_text();
            t.append(" -> ");
            t.append(to.to_text().as_str());
            push_labelled(out, "audit ", t.as_str());
        },
        AuditKind::Violation { violation } => {
            push_labelled(out, "violation against ", violation.text.as_str());
        },
    }
}

fn push_entry(out: &mut String, source: &Option<String>, e: &AuditEntry)
    ensures
        final(out)@ == old(out)@ + entry_text(text::opt_text(*source), e@),
{
    let ghost before = out@;
    match source {
        None => {
            out.append("own ");
        },
        Some(name) => {
            out.append("foreign (");
            out.append(name.as_str());
            out.append(") ");
        },
    }
    let ghost s = source_text(text::opt_text(*source));
    assert(out@ =~= before + s);
    push_kind(out, &e.kind);
    push_labelled(out, "      criteria: ", debug_list(&e.criteria).as_str());
    let ghost mid = out@;
    if e.who.len() > 0 {
        push_labelled(out, "      who: ", join_texts(&e.who, ", ").as_str());
    }
    assert(out@ =~= mid + who_text(text::texts(e.who@)));
    push_notes(out, &e.notes);
    assert(out@ =~= before + entry_text(text::opt_text(*source), e@));
}

fn push_conflict(out: &mut String, c: &ViolationConflict)
    ensures
        final(out)@ == old(out)@ + conflict_text(c@),
{
    let ghost before = out@;
    match c {
        ViolationConflict::UnauditedConflict { violation_source, violation, exemptions } => {
            out.append("    the ");
            push_exemption(out, exemptions);
            out.append("    conflicts with ");
            push_entry(out, violation_source, violation);
        },
        ViolationConflict::AuditConflict {
            violation_source,
            violation,
            audit_source,
            audit,
        } => {
            out.append("    the ");
            push_entry(out, audit_source, audit);
            out.append("    conflicts with ");
            push_entry(out, violation_source, violation);
        },
    }
    out.append("\n");
    assert(out@ =~= before + conflict_text(c@));
}

impl FailForViolationConflict {
    /// Tells which entries are at odds with violations.
    pub fn print_human(&self, packages: &Vec<Package>) -> (r: String)
        requires
            resolve::in_range(resolve::positions(self.violations@), packages@),
        ensures
            r@ == violations_text(packages@, self.violations@),
    {
        let ghost v = self.violations@;
        let mut r: String = "Violations Found!\n".to_owned();
        let mut i: usize = 0;
        assert(v.take(0).len() == 0);
        while i < self.violations.len()
            invariant
                resolve::in_range(resolve::positions(self.violations@), packages@),
                v == self.violations@,
                i <= v.len(),
                r@ == violations_text(packages@, v.take(i as int)),
            decreases v.len() - i,
        {
            let p: usize = self.violations[i].0;
            assert(resolve::positions(self.violations@)[i as int] == p);
            let ghost before = r@;
            r.append("  ");
            r.append(package_to_text(&packages[p]).as_str());
            r.append("\n");
            let ghost head = r@;
            let list = &self.violations[i].1;
            let ghost l = sorted_map::views(list@);
            let mut j: usize = 0;
            assert(l.take(0).len() == 0);
            assert(r@ =~= head + conflicts_text(l.take(0)));
            while j < list.len()
                invariant
                    l == sorted_map::views(list@),
                    j <= list@.len(),
                    r@ == head + conflicts_text(l.take(j as int)),
                decreases list@.len() - j,
            {
                push_conflict(&mut r, &list[j]);
                proof {
                    assert(l.take(j + 1).drop_last() =~= l.take(j as int));
                    assert(l.take(j + 1).last() == list@[j as int]@);
                    assert(r@ =~= head + conflicts_text(l.take(j + 1)));
                }
                j = j + 1;
            }
            proof {
                assert(l.take(j as int) =~= l);
                assert(v.take(i + 1).drop_last() =~= v.take(i as int));
                assert(v.take(i + 1).last() == v[i as int]);
                assert(r@ =~= violations_text(packages@, v.take(i + 1)));
            }
            i = i + 1;
        }
        assert(v.take(i as int) =~= v);
        r
    }
}

/// The key that orders failed packages when they are told: name and version.
pub open spec fn failure_key(package: Package) -> Seq<u64> {
    text::text_key(package.name@) + version::vet_version_key(package.version@)
}

/// The keys of failed packages.
pub open spec fn failure_keys(packages: Seq<Package>, s: Seq<(usize, AuditFailure)>) -> Seq<Seq<u64>> {
    s.map_values(|f: (usize, AuditFailure)| failure_key(packages[f.0 as int]))
}

/// How a failed package is told.
pub open spec fn failure_text(
    packages: Seq<Package>,
    m: CriteriaMapper,
    f: (usize, AuditFailure),
) -> Seq<char> {
    "  "@ + package_text(packages[f.0 as int]) + " missing "@ + debug_texts(
        criteria::names_of(m, f.1.criteria_failures),
    ) + "\n"@
}

/// How failed packages are told, at some positions of their list.
pub open spec fn failures_text(
    packages: Seq<Package>,
    m: CriteriaMapper,
    s: Seq<(usize, AuditFailure)>,
    order: Seq<usize>,
) -> Seq<char>
    decreases order.len(),
{
    if order.len() == 0 {
        "Vetting Failed!\n\n"@ + text::decimal(s.len()) + " unvetted dependencies:\n"@
    } else {
        failures_text(packages, m, s, order.drop_last()) + failure_text(
            packages,
            m,
            s[order.last() as int],
        )
    }
}

impl FailForVet {
    /// Tells which packages fail, by name and version, and for which criteria.
    fn failures_to_text(&self, packages: &Vec<Package>, m: &CriteriaMapper) -> (r: String)
        requires
            m.wf(),
            resolve::in_range(resolve::positions(self.failures@), packages@),
        ensures
            exists|order: Seq<usize>| #[trigger]
                order::is_stable_order(failure_keys(packages@, self.failures@), order) && r@
                    == failures_text(packages@, *m, self.failures@, order),
    {
        let ghost s = self.failures@;
        let mut keys: Vec<Vec<u64>> = Vec::new();
        let mut i: usize = 0;
        while i < self.failures.len()
            invariant
                resolve::in_range(resolve::positions(self.failures@), packages@),
                s == self.failures@,
                i <= s.len(),
                keys@.len() == i,
                forall|x: int|
                    0 <= x < i ==> (#[trigger] keys@[x])@ == failure_key(packages@[s[x].0 as int]),
            decreases s.len() - i,
        {
            let p: usize = self.failures[i].0;
            assert(resolve::positions(self.failures@)[i as int] == p);
            let mut key: Vec<u64> = Vec::new();
            push_text_key(packages[p].name.as_str(), &mut key);
            packages[p].version.push_key(&mut key);
            assert(key@ =~= failure_key(packages@[p as int]));
            keys.push(key);
            i = i + 1;
        }
        assert(order::key_views(keys@) =~= failure_keys(packages@, s));
        let order = sort_positions(keys);
        let mut r: String = "Vetting Failed!\n\n".to_owned();
        push_decimal(&mut r, self.failures.len() as u64);
        r.append(" unvetted dependencies:\n");
        let mut k: usize = 0;
        assert(order@.take(0).len() == 0);
        while k < order.len()
            invariant
                m.wf(),
                resolve::in_range(resolve::positions(self.failures@), packages@),
                s == self.failures@,
                order::is_stable_order(failure_keys(packages@, s), order@),
                k <= order@.len(),
                r@ == failures_text(packages@, *m, s, order@.take(k as int)),
            decreases order@.len() - k,
        {
            let x: usize = order[k];
            let p: usize = self.failures[x].0;
            assert(resolve::positions(self.failures@)[x as int] == p);
            let names = m.criteria_names(&self.failures[x].1.criteria_failures);
            let ghost before = r@;
            r.append("  ");
            r.append(package_to_text(&packages[p]).as_str());
            r.append(" missing ");
            r.append(debug_list(&names).as_str());
            r.append("\n");
            proof {
                assert(order@.take(k + 1).drop_last() =~= order@.take(k as int));
                assert(order@.take(k + 1).last() == x);
                assert(r@ =~= before + failure_text(packages@, *m, s[x as int]));
            }
            k = k + 1;
        }
        assert(order@.take(k as int) =~= order@);
        r
    }
}

/// A list, shortened if it is long.
pub open spec fn short_list(items: Seq<Seq<char>>) -> Seq<char> {
    if items.len() <= 1 {
        text::join(items, ""@)
    } else if items.len() == 2 {
        items[0] + " and "@ + items[1]
    } else if items.len() == 3 {
        items[0] + ", "@ + items[1] + ", and "@ + items[2]
    } else {
        items[0] + ", "@ + items[1] + ", and "@ + text::decimal((items.len() - 2) as nat)
            + " others"@
    }
}

/// A list, shortened if it is long.
pub fn short_list_to_text(items: &Vec<String>) -> (r: String)
    ensures
        r@ == short_list(text::texts(items@)),
{
    let n: usize = items.len();
    if n <= 1 {
        return join_texts(items, "");
    }
    let mut r: String = items[0].clone();
    if n == 2 {
        r.append(" and ");
        r.append(items[1].as_str());
        return r;
    }
    r.append(", ");
    r.append(items[1].as_str());
    r.append(", and ");
    if n == 3 {
        r.append(items[2].as_str());
    } else {
        push_decimal(&mut r, (n - 2) as u64);
        r.append(" others");
    }
    r
}

/// How much changed.
pub open spec fn diffstat_text(d: DiffStat) -> Seq<char> {
    text::decimal(d.files_changed as nat) + " files changed"@ + (if d.insertions > 0 {
        ", "@ + text::decimal(d.insertions as nat) + " insertions(+)"@
    } else {
        Seq::empty()
    }) + (if d.deletions > 0 {
        ", "@ + text::decimal(d.deletions as nat) + " deletions(-)"@
    } else {
        Seq::empty()
    })
}

impl DiffStat {
    /// How much changed.
    pub fn to_text(&self) -> (r: String)
        ensures
            r@ == diffstat_text(*self),
    {
        let mut r: String = String::new();
        push_decimal(&mut r, self.files_changed);
        r.append(" files changed");
        if self.insertions > 0 {
            r.append(", ");
            push_decimal(&mut r, self.insertions);
            r.append(" insertions(+)");
        }
        if self.deletions > 0 {
            r.append(", ");
            push_decimal(&mut r, self.deletions);
            r.append(" deletions(-)");
        }
        assert(r@ =~= diffstat_text(*self));
        r
    }
}

/// What a change is called.
pub open spec fn delta_text(d: DeltaView) -> Seq<char> {
    match d.from {
        Some(from) => version::version_text(from) + " -> "@ + version::version_text(d.to),
        None => version::version_text(d.to),
    }
}

impl Delta {
    /// What the change is called.
    pub fn to_text(&self) -> (r: String)
        ensures
            r@ == delta_text(self@),
    {
        match &self.from {
            Some(from) => {
                let mut r: String = from.to_text();
                r.append(" -> ");
                r.append(self.to.to_text().as_str());
                r
            },
            None => self.to.to_text(),
        }
    }
}

/// The warning that a change could not be diffed.
pub fn diff_warning(package: &str, delta: &Delta, error: &str) -> (r: String)
    ensures
        r@ == "error diffing "@ + package@ + ":"@ + delta_text(delta@) + ": "@ + error@,
{
    let mut r: String = "error diffing ".to_owned();
    r.append(package);
    r.append(":");
    r.append(delta.to_text().as_str());
    r.append(": ");
    r.append(error);
    r
}

/// The command that shows what to audit.
pub open spec fn command_text(name: Seq<char>, d: DiffRecommendationView) -> Seq<char> {
    match d.from {
        Some(from) => "cargo vet diff "@ + name + " "@ + version::version_text(from) + " "@
            + version::version_text(d.to),
        None => "cargo vet inspect "@ + name + " "@ + version::version_text(d.to),
    }
}

/// How large the audit is.
pub open spec fn size_text(d: DiffRecommendationView) -> Seq<char> {
    match d.from {
        Some(_) => diffstat_text(d.diffstat),
        None => text::decimal(d.diffstat.lines() as nat) + " lines"@,
    }
}

/// A suggested audit in columns.
pub struct RowView {
    pub command: Seq<char>,
    pub publisher: Seq<char>,
    pub parents: Seq<char>,
    pub size: Seq<char>,
}

/// A suggested audit in columns.
pub open spec fn row(packages: Seq<Package>, item: SuggestItemView) -> RowView {
    RowView {
        command: command_text(packages[item.package as int].name@, item.suggested_diff),
        publisher: match item.publisher_login {
            Some(login) => login,
            None => "UNKNOWN"@,
        },
        parents: short_list(item.notable_parents),
        size: size_text(item.suggested_diff),
    }
}

/// The longest command that leaves the other columns on its line.
pub const MAX_COMMAND_CHARS: usize = 52;

/// The widths of the columns.
pub struct Widths {
    pub command: nat,
    pub publisher: nat,
    pub parents: nat,
}

/// The larger of two widths.
pub open spec fn larger(a: nat, b: nat) -> nat {
    if a < b {
        b
    } else {
        a
    }
}

/// The columns are as wide as their widest text, but for commands that are too
/// long.
pub open spec fn widths(packages: Seq<Package>, s: Seq<SuggestItemView>) -> Widths
    decreases s.len(),
{
    if s.len() == 0 {
        Widths {
            command: display_width("Command"@) as nat,
            publisher: display_width("Publisher"@) as nat,
            parents: display_width("Used By"@) as nat,
        }
    } else {
        let w = widths(packages, s.drop_last());
        let r = row(packages, s.last());
        let command = display_width(r.command);
        Widths {
            command: larger(
                w.command,
                if command < MAX_COMMAND_CHARS {
                    command as nat
                } else {
                    MAX_COMMAND_CHARS as nat
                },
            ),
            publisher: larger(w.publisher, display_width(r.publisher) as nat),
            parents: larger(w.parents, display_width(r.parents) as nat),
        }
    }
}

/// A command, with the rest of the line on the next one if it is too long.
pub open spec fn wrapped(command: Seq<char>) -> Seq<char> {
    if display_width(command) > MAX_COMMAND_CHARS {
        command + "\n"@ + text::repeat(' ', (MAX_COMMAND_CHARS + 4) as nat)
    } else {
        command
    }
}

/// The columns after the first.
pub open spec fn columns(w: Widths, a: Seq<char>, b: Seq<char>, c: Seq<char>) -> Seq<char> {
    "  "@ + text::pad(a, w.publisher) + "  "@ + text::pad(b, w.parents) + "  "@ + c
}

/// The head of a table.
pub open spec fn head_spans(w: Widths) -> Seq<SpanView> {
    seq![
        styled(
            Style::BoldDim,
            "    "@ + text::pad("Command"@, w.command) + columns(
                w,
                "Publisher"@,
                "Used By"@,
                "Audit Size"@,
            ),
        ),
        plain("\n"@),
    ]
}

/// What an import would be good for.
pub open spec fn gain_text(lines: int) -> Seq<char> {
    if lines == 0 {
        "would eliminate this"@
    } else {
        "would reduce this to a "@ + text::decimal(lines as nat) + "-line diff"@
    }
}

/// The note on an import.
pub open spec fn registry_spans(s: RegistrySuggestionView) -> Seq<SpanView> {
    seq![
        plain("      "@),
        styled(Style::Dim, "NOTE:"@),
        plain(" "@),
        styled(Style::DimCyanBold, "cargo vet import "@ + s.name),
        plain(" "@),
        styled(Style::Dim, gain_text(s.diff.diffstat.lines())),
        plain("\n"@),
    ]
}

/// The notes on imports.
pub open spec fn all_registry_spans(s: Seq<RegistrySuggestionView>) -> Seq<SpanView>
    decreases s.len(),
{
    if s.len() == 0 {
        Seq::empty()
    } else {
        all_registry_spans(s.drop_last()) + registry_spans(s.last())
    }
}

/// Who trusts a publisher.
pub open spec fn trust_text(hint: TrustHintView) -> Seq<char> {
    "NOTE: "@ + short_list(hint.trusted_by) + (if hint.trusted_by.len() == 1 {
        " trusts "@
    } else {
        " trust "@
    }) + hint.publisher.title + (if hint.exact_version {
        ""@
    } else {
        ", who published another version of this crate"@
    }) + " - consider"@
}

/// The commands that trust a publisher.
pub open spec fn trust_commands(name: Seq<char>, hint: TrustHintView, sole: bool) -> Seq<SpanView> {
    if sole {
        seq![
            styled(Style::DimCyan, "cargo vet trust "@ + name),
            plain(" "@),
            styled(Style::Dim, "or"@),
            plain(" "@),
            styled(Style::DimCyan, "cargo vet trust --all "@ + hint.publisher.identifier),
        ]
    } else {
        seq![
            styled(
                Style::DimCyan,
                "cargo vet trust "@ + name + " "@ + hint.publisher.identifier,
            ),
        ]
    }
}

/// The note on a publisher.
pub open spec fn hint_spans(name: Seq<char>, hint: Option<TrustHintView>, sole: bool) -> Seq<SpanView> {
    match hint {
        Some(hint) => seq![
            plain("      "@),
            styled(Style::Dim, trust_text(hint)),
            plain(" "@),
        ] + trust_commands(name, hint, sole) + seq![plain("\n"@)],
        None => Seq::empty(),
    }
}

/// How a suggested audit is told.
pub open spec fn item_spans(packages: Seq<Package>, w: Widths, item: SuggestItemView) -> Seq<SpanView> {
    let r = row(packages, item);
    seq![
        styled(Style::CyanBold, "    "@ + text::pad(wrapped(r.command), w.command)),
        plain(columns(w, r.publisher, r.parents, r.size) + "\n"@),
    ] + all_registry_spans(item.registry_suggestion) + hint_spans(
        packages[item.package as int].name@,
        item.trust_hint,
        item.is_sole_publisher,
    )
}

/// How suggested audits are told.
pub open spec fn rows_spans(packages: Seq<Package>, w: Widths, s: Seq<SuggestItemView>) -> Seq<SpanView>
    decreases s.len(),
{
    if s.len() == 0 {
        Seq::empty()
    } else {
        rows_spans(packages, w, s.drop_last()) + item_spans(packages, w, s.last())
    }
}

/// How the suggested audits for some criteria are told.
pub open spec fn group_spans(packages: Seq<Package>, criteria: Seq<char>, s: Seq<SuggestItemView>) -> Seq<
    SpanView,
> {
    let w = widths(packages, s);
    seq![plain("recommended audits for "@ + criteria + ":\n"@)] + head_spans(w) + rows_spans(
        packages,
        w,
        s,
    ) + seq![plain("\n"@)]
}

/// How all groups are told.
pub open spec fn groups_spans(packages: Seq<Package>, s: Seq<(String, Vec<SuggestItem>)>) -> Seq<
    SpanView,
>
    decreases s.len(),
{
    if s.len() == 0 {
        Seq::empty()
    } else {
        groups_spans(packages, s.drop_last()) + group_spans(
            packages,
            s.last().0@,
            sorted_map::views(s.last().1@),
        )
    }
}

/// How warnings are told.
pub open spec fn warning_spans(s: Seq<Seq<char>>) -> Seq<SpanView>
    decreases s.len(),
{
    if s.len() == 0 {
        Seq::empty()
    } else {
        (if s.len() == 1 {
            seq![plain("\n"@)]
        } else {
            warning_spans(s.drop_last())
        }) + seq![styled(Style::Yellow, "WARNING"@), plain(": "@ + s.last() + "\n"@)]
    }
}

/// How suggestions are told.
pub open spec fn suggest_spans(packages: Seq<Package>, s: Suggest) -> Seq<SpanView> {
    groups_spans(packages, s.suggestions_by_criteria.entries()) + seq![
        plain("estimated audit backlog: "@ + text::decimal(s.total_lines as nat) + " lines\n"@),
    ] + warning_spans(text::texts(s.warnings@)) + seq![
        plain("\nUse |cargo vet certify| to record the audits.\n"@),
    ]
}

/// A suggested audit can be told: its package is known, and its lines and those
/// of the imports can be counted.
pub open spec fn item_tells(packages: Seq<Package>, item: SuggestItemView) -> bool {
    &&& item.package < packages.len()
    &&& item.suggested_diff.diffstat.wf()
    &&& forall|j: int|
        0 <= j < item.registry_suggestion.len() ==> (
        #[trigger] item.registry_suggestion[j]).diff.diffstat.wf()
}

/// All suggested audits of a list can be told.
pub open spec fn items_tell(packages: Seq<Package>, s: Seq<SuggestItemView>) -> bool {
    forall|i: int| 0 <= i < s.len() ==> item_tells(packages, #[trigger] s[i])
}

/// All suggested audits can be told.
pub open spec fn suggest_tells(packages: Seq<Package>, s: Suggest) -> bool {
    forall|k: int|
        0 <= k < s.suggestions_by_criteria.entries().len() ==> items_tell(
            packages,
            sorted_map::views((#[trigger] s.suggestions_by_criteria.entries()[k]).1@),
        )
}

/// A suggested audit in columns.
struct Row {
    command: String,
    publisher: String,
    parents: String,
    size: String,
}

impl Row {
    spec fn shows(self, r: RowView) -> bool {
        self.command@ == r.command && self.publisher@ == r.publisher && self.parents@ == r.parents
            && self.size@ == r.size
    }
}

/// The command that shows what to audit.
fn command_of(name: &str, d: &DiffRecommendation) -> (r: String)
    ensures
        r@ == command_text(name@, d@),
{
    match &d.from {
        Some(from) => {
            let mut r: String = "cargo vet diff ".to_owned();
            r.append(name);
            r.append(" ");
            r.append(from.to_text().as_str());
            r.append(" ");
            r.append(d.to.to_text().as_str());
            r
        },
        None => {
            let mut r: String = "cargo vet inspect ".to_owned();
            r.append(name);
            r.append(" ");
            r.append(d.to.to_text().as_str());
            r
        },
    }
}

/// A suggested audit in columns.
fn row_of(packages: &Vec<Package>, item: &SuggestItem) -> (r: Row)
    requires
        item_tells(packages@, item@),
    ensures
        r.shows(row(packages@, item@)),
{
    let d = &item.suggested_diff;
    Row {
        command: command_of(packages[item.package].name.as_str(), d),
        publisher: match &item.publisher_login {
            Some(login) => login.clone(),
            None => "UNKNOWN".to_owned(),
        },
        parents: short_list_to_text(&item.notable_parents),
        size: match &d.from {
            Some(_) => d.diffstat.to_text(),
            None => {
                let mut size: String = String::new();
                push_decimal(&mut size, d.diffstat.count());
                size.append(" lines");
                assert(size@ =~= text::decimal(d.diffstat.lines() as nat) + " lines"@);
                size
            },
        },
    }
}

/// The widths of the columns.
struct ColumnWidths {
    command: usize,
    publisher: usize,
    parents: usize,
}

impl ColumnWidths {
    spec fn shows(self, w: Widths) -> bool {
        self.command == w.command && self.publisher == w.publisher && self.parents == w.parents
    }
}

fn larger_of(a: usize, b: usize) -> (r: usize)
    ensures
        r == larger(a as nat, b as nat),
{
    if a < b {
        b
    } else {
        a
    }
}

fn measure_columns(packages: &Vec<Package>, items: &Vec<SuggestItem>) -> (r: ColumnWidths)
    requires
        items_tell(packages@, sorted_map::views(items@)),
    ensures
        r.shows(widths(packages@, sorted_map::views(items@))),
{
    let ghost s = sorted_map::views(items@);
    let mut w = ColumnWidths {
        command: measure("Command"),
        publisher: measure("Publisher"),
        parents: measure("Used By"),
    };
    let mut i: usize = 0;
    assert(s.take(0).len() == 0);
    while i < items.len()
        invariant
            s == sorted_map::views(items@),
            items_tell(packages@, s),
            i <= items@.len(),
            w.shows(widths(packages@, s.take(i as int))),
        decreases items@.len() - i,
    {
        proof {
            assert(s.take(i + 1).drop_last() =~= s.take(i as int));
            assert(s.take(i + 1).last() == items@[i as int]@);
            assert(item_tells(packages@, s[i as int]));
        }
        let r = row_of(packages, &items[i]);
        let command: usize = measure(r.command.as_str());
        let shown: usize = if command < MAX_COMMAND_CHARS {
            command
        } else {
            MAX_COMMAND_CHARS
        };
        w = ColumnWidths {
            command: larger_of(w.command, shown),
            publisher: larger_of(w.publisher, measure(r.publisher.as_str())),
            parents: larger_of(w.parents, measure(r.parents.as_str())),
        };
        i = i + 1;
    }
    assert(s.take(i as int) =~= s);
    w
}

/// Adds the columns after the first.
fn push_columns(
    out: &mut String,
    w: &ColumnWidths,
    a: &str,
    b: &str,
    c: &str,
    Ghost(v): Ghost<Widths>,
)
    requires
        w.shows(v),
    ensures
        final(out)@ == old(out)@ + columns(v, a@, b@, c@),
{
    let ghost before = out@;
    out.append("  ");
    push_padded(out, a, w.publisher);
    out.append("  ");
    push_padded(out, b, w.parents);
    out.append("  ");
    out.append(c);
    assert(out@ =~= before + columns(v, a@, b@, c@));
}

fn push_head(out: &mut Vec<Span>, w: &ColumnWidths, Ghost(v): Ghost<Widths>)
    requires
        w.shows(v),
    ensures
        sorted_map::views(final(out)@) == sorted_map::views(old(out)@) + head_spans(v),
{
    let ghost before = sorted_map::views(out@);
    let mut head: String = "    ".to_owned();
    push_padded(&mut head, "Command", w.command);
    push_columns(&mut head, w, "Publisher", "Used By", "Audit Size", Ghost(v));
    push_span(out, Style::BoldDim, head);
    push_span(out, Style::Plain, "\n".to_owned());
    assert(sorted_map::views(out@) =~= before + head_spans(v));
}

fn push_registry(out: &mut Vec<Span>, s: &RegistrySuggestion)
    requires
        s.diff.diffstat.wf(),
    ensures
        sorted_map::views(final(out)@) == sorted_map::views(old(out)@) + registry_spans(s@),
{
    let ghost before = sorted_map::views(out@);
    let mut command: String = "cargo vet import ".to_owned();
    command.append(s.name.as_str());
    let lines: u64 = s.diff.diffstat.count();
    let mut gain: String = "would eliminate this".to_owned();
    if lines != 0 {
        gain = "would reduce this to a ".to_owned();
        push_decimal(&mut gain, lines);
        gain.append("-line diff");
    }
    assert(gain@ =~= gain_text(s.diff.diffstat.lines()));
    push_span(out, Style::Plain, "      ".to_owned());
    push_span(out, Style::Dim, "NOTE:".to_owned());
    push_span(out, Style::Plain, " ".to_owned());
    push_span(out, Style::DimCyanBold, command);
    push_span(out, Style::Plain, " ".to_owned());
    push_span(out, Style::Dim, gain);
    push_span(out, Style::Plain, "\n".to_owned());
    assert(sorted_map::views(out@) =~= before + registry_spans(s@));
}

fn push_all_registry(out: &mut Vec<Span>, list: &Vec<RegistrySuggestion>)
    requires
        forall|j: int|
            0 <= j < list@.len() ==> (#[trigger] sorted_map::views(list@)[j]).diff.diffstat.wf(),
    ensures
        sorted_map::views(final(out)@) == sorted_map::views(old(out)@) + all_registry_spans(
            sorted_map::views(list@),
        ),
{
    let ghost before = sorted_map::views(out@);
    let ghost l = sorted_map::views(list@);
    let mut j: usize = 0;
    assert(sorted_map::views(out@) =~= before + all_registry_spans(l.take(0)));
    while j < list.len()
        invariant
            l == sorted_map::views(list@),
            forall|j: int| 0 <= j < list@.len() ==> (#[trigger] l[j]).diff.diffstat.wf(),
            j <= list@.len(),
            sorted_map::views(out@) == before + all_registry_spans(l.take(j as int)),
        decreases list@.len() - j,
    {
        assert(l[j as int] == list@[j as int]@);
        push_registry(out, &list[j]);
        proof {
            assert(l.take(j + 1).drop_last() =~= l.take(j as int));
            assert(l.take(j + 1).last() == l[j as int]);
            assert(sorted_map::views(out@) =~= before + all_registry_spans(l.take(j + 1)));
        }
        j = j + 1;
    }
    assert(l.take(j as int) =~= l);
}

fn push_hint(out: &mut Vec<Span>, name: &str, hint: &TrustHint, sole: bool)
    ensures
        sorted_map::views(final(out)@) == sorted_map::views(old(out)@) + hint_spans(
            name@,
            Some(hint@),
            sole,
        ),
{
    let ghost before = sorted_map::views(out@);
    let mut note: String = "NOTE: ".to_owned();
    note.append(short_list_to_text(&hint.trusted_by).as_str());
    if hint.trusted_by.len() == 1 {
        note.append(" trusts ");
    } else {
        note.append(" trust ");
    }
    note.append(hint.publisher.title.as_str());
    if hint.exact_version {
        note.append("");
    } else {
        note.append(", who published another version of this crate");
    }
    note.append(" - consider");
    assert(note@ =~= trust_text(hint@));
    push_span(out, Style::Plain, "      ".to_owned());
    push_span(out, Style::Dim, note);
    push_span(out, Style::Plain, " ".to_owned());
    let mut command: String = "cargo vet trust ".to_owned();
    command.append(name);
    if sole {
        push_span(out, Style::DimCyan, command);
        push_span(out, Style::Plain, " ".to_owned());
        push_span(out, Style::Dim, "or".to_owned());
        push_span(out, Style::Plain, " ".to_owned());
        let mut all: String = "cargo vet trust --all ".to_owned();
        all.append(hint.publisher.identifier.as_str());
        push_span(out, Style::DimCyan, all);
    } else {
        command.append(" ");
        command.append(hint.publisher.identifier.as_str());
        push_span(out, Style::DimCyan, command);
    }
    push_span(out, Style::Plain, "\n".to_owned());
    assert(sorted_map::views(out@) =~= before + hint_spans(name@, Some(hint@), sole));
}

fn push_item(
    out: &mut Vec<Span>,
    packages: &Vec<Package>,
    w: &ColumnWidths,
    item: &SuggestItem,
    Ghost(v): Ghost<Widths>,
)
    requires
        w.shows(v),
        item_tells(packages@, item@),
    ensures
        sorted_map::views(final(out)@) == sorted_map::views(old(out)@) + item_spans(
            packages@,
            v,
            item@,
        ),
{
    let ghost before = sorted_map::views(out@);
    let r = row_of(packages, item);
    let ghost rv = row(packages@, item@);
    let long = measure(r.command.as_str()) > MAX_COMMAND_CHARS;
    let mut command: String = r.command;
    if long {
        command.append("\n");
        push_spaces(&mut command, MAX_COMMAND_CHARS + 4);
    }
    assert(command@ =~= wrapped(rv.command));
    let mut first: String = "    ".to_owned();
    push_padded(&mut first, command.as_str(), w.command);
    push_span(out, Style::CyanBold, first);
    let mut rest: String = String::new();
    push_columns(
        &mut rest,
        w,
        r.publisher.as_str(),
        r.parents.as_str(),
        r.size.as_str(),
        Ghost(v),
    );
    rest.append("\n");
    assert(rest@ =~= columns(v, rv.publisher, rv.parents, rv.size) + "\n"@);
    push_span(out, Style::Plain, rest);
    let ghost two = sorted_map::views(out@);
    push_all_registry(out, &item.registry_suggestion);
    let ghost three = sorted_map::views(out@);
    let name = packages[item.package].name.as_str();
    if let Some(hint) = &item.trust_hint {
        push_hint(out, name, hint, item.is_sole_publisher);
    }
    assert(sorted_map::views(out@) =~= three + hint_spans(
        name@,
        item@.trust_hint,
        item.is_sole_publisher,
    ));
    assert(sorted_map::views(out@) =~= before + item_spans(packages@, v, item@));
}

fn push_group(
    out: &mut Vec<Span>,
    packages: &Vec<Package>,
    criteria: &str,
    items: &Vec<SuggestItem>,
)
    requires
        items_tell(packages@, sorted_map::views(items@)),
    ensures
        sorted_map::views(final(out)@) == sorted_map::views(old(out)@) + group_spans(
            packages@,
            criteria@,
            sorted_map::views(items@),
        ),
{
    let ghost before = sorted_map::views(out@);
    let ghost s = sorted_map::views(items@);
    let ghost v = widths(packages@, s);
    let w = measure_columns(packages, items);
    let mut title: String = "recommended audits for ".to_owned();
    title.append(criteria);
    title.append(":\n");
    push_span(out, Style::Plain, title);
    push_head(out, &w, Ghost(v));
    let ghost head = sorted_map::views(out@);
    let mut i: usize = 0;
    assert(sorted_map::views(out@) =~= head + rows_spans(packages@, v, s.take(0)));
    while i < items.len()
        invariant
            w.shows(v),
            s == sorted_map::views(items@),
            items_tell(packages@, s),
            i <= items@.len(),
            sorted_map::views(out@) == head + rows_spans(packages@, v, s.take(i as int)),
        decreases items@.len() - i,
    {
        proof {
            assert(s.take(i + 1).drop_last() =~= s.take(i as int));
            assert(s.take(i + 1).last() == items@[i as int]@);
            assert(item_tells(packages@, s[i as int]));
        }
        push_item(out, packages, &w, &items[i], Ghost(v));
        assert(sorted_map::views(out@) =~= head + rows_spans(packages@, v, s.take(i + 1)));
        i = i + 1;
    }
    assert(s.take(i as int) =~= s);
    push_span(out, Style::Plain, "\n".to_owned());
    assert(sorted_map::views(out@) =~= before + group_spans(packages@, criteria@, s));
}

fn push_warnings(out: &mut Vec<Span>, warnings: &Vec<String>)
    ensures
        sorted_map::views(final(out)@) == sorted_map::views(old(out)@) + warning_spans(
            text::texts(warnings@),
        ),
{
    let ghost before = sorted_map::views(out@);
    let ghost t = text::texts(warnings@);
    let mut i: usize = 0;
    assert(sorted_map::views(out@) =~= before + warning_spans(t.take(0)));
    while i < warnings.len()
        invariant
            t == text::texts(warnings@),
            i <= warnings@.len(),
            sorted_map::views(out@) == before + warning_spans(t.take(i as int)),
        decreases warnings@.len() - i,
    {
        proof {
            assert(t.take(i + 1).drop_last() =~= t.take(i as int));
            assert(t.take(i + 1).last() == warnings@[i as int]@);
        }
        if i == 0 {
            push_span(out, Style::Plain, "\n".to_owned());
        }
        push_span(out, Style::Yellow, "WARNING".to_owned());
        let mut line: String = ": ".to_owned();
        line.append(warnings[i].as_str());
        line.append("\n");
        push_span(out, Style::Plain, line);
        assert(sorted_map::views(out@) =~= before + warning_spans(t.take(i + 1)));
        i = i + 1;
    }
    assert(t.take(i as int) =~= t);
}

impl Suggest {
    /// Tells what to audit.
    pub fn print_human(&self, packages: &Vec<Package>) -> (r: Vec<Span>)
        requires
            suggest_tells(packages@, *self),
        ensures
            sorted_map::views(r@) == suggest_spans(packages@, *self),
    {
        let map = &self.suggestions_by_criteria;
        let ghost e = map.entries();
        let mut out: Vec<Span> = Vec::new();
        let mut k: usize = 0;
        assert(sorted_map::views(out@) =~= groups_spans(packages@, e.take(0)));
        while k < map.len()
            invariant
                suggest_tells(packages@, *self),
                *map == self.suggestions_by_criteria,
                e == map.entries(),
                k <= e.len(),
                sorted_map::views(out@) == groups_spans(packages@, e.take(k as int)),
            decreases e.len() - k,
        {
            proof {
                assert(e.take(k + 1).drop_last() =~= e.take(k as int));
                assert(e.take(k + 1).last() == e[k as int]);
                assert(items_tell(
                    packages@,
                    sorted_map::views(self.suggestions_by_criteria.entries()[k as int].1@),
                ));
            }
            push_group(&mut out, packages, map.key_at(k).as_str(), map.value_at(k));
            k = k + 1;
        }
        assert(e.take(k as int) =~= e);
        let ghost groups = sorted_map::views(out@);
        let mut backlog: String = "estimated audit backlog: ".to_owned();
        push_decimal(&mut backlog, self.total_lines);
        backlog.append(" lines\n");
        push_span(&mut out, Style::Plain, backlog);
        push_warnings(&mut out, &self.warnings);
        push_span(
            &mut out,
            Style::Plain,
            "\nUse |cargo vet certify| to record the audits.\n".to_owned(),
        );
        assert(sorted_map::views(out@) =~= suggest_spans(packages@, *self));
        out
    }
}

/// The suggestions can be told, if there are any.
pub open spec fn opt_suggest_tells(packages: Seq<Package>, suggest: Option<&Suggest>) -> bool {
    match suggest {
        Some(s) => suggest_tells(packages, *s),
        None => true,
    }
}

impl FailForVet {
    /// Whether spans tell which packages fail, and the suggestions.
    pub open spec fn is_report(
        &self,
        packages: Seq<Package>,
        m: CriteriaMapper,
        suggest: Option<&Suggest>,
        r: Seq<SpanView>,
    ) -> bool {
        exists|order: Seq<usize>| #[trigger]
            order::is_stable_order(failure_keys(packages, self.failures@), order) && r == seq![
                plain(failures_text(packages, m, self.failures@, order)),
            ] + (match suggest {
                Some(s) => seq![plain("\n"@)] + suggest_spans(packages, *s),
                None => Seq::empty(),
            })
    }

    /// Tells which packages fail, and the suggestions.
    pub fn print_human(
        &self,
        packages: &Vec<Package>,
        m: &CriteriaMapper,
        suggest: Option<&Suggest>,
    ) -> (r: Vec<Span>)
        requires
            m.wf(),
            resolve::in_range(resolve::positions(self.failures@), packages@),
            opt_suggest_tells(packages@, suggest),
        ensures
            self.is_report(packages@, *m, suggest, sorted_map::views(r@)),
    {
        let mut out: Vec<Span> = Vec::new();
        let t = self.failures_to_text(packages, m);
        push_span(&mut out, Style::Plain, t);
        let ghost first = sorted_map::views(out@);
        assert(first =~= seq![plain(t@)]);
        if let Some(s) = suggest {
            push_span(&mut out, Style::Plain, "\n".to_owned());
            let ghost a = out@;
            let mut more = s.print_human(packages);
            let ghost b = more@;
            out.append(&mut more);
            assert(sorted_map::views(out@) =~= sorted_map::views(a) + sorted_map::views(b));
            assert(sorted_map::views(out@) =~= seq![plain(t@)] + (seq![plain("\n"@)]
                + suggest_spans(packages@, *s)));
        } else {
            assert(sorted_map::views(out@) =~= seq![plain(t@)] + Seq::<SpanView>::empty());
        }
        out
    }
}

impl ResolveReport {
    /// Whether spans tell the conclusion, and the suggestions if packages failed
    /// to be vetted.
    pub open spec fn is_report(&self, suggest: Option<&Suggest>, r: Seq<SpanView>) -> bool {
        match self.conclusion {
            Conclusion::Success(s) => r == seq![
                plain(
                    success_text(
                        s.vetted_fully@.len(),
                        s.vetted_partially@.len(),
                        s.vetted_with_exemptions@.len(),
                    ),
                ),
            ],
            Conclusion::FailForViolationConflict(f) => r == seq![
                plain(violations_text(self.packages@, f.violations@)),
            ],
            Conclusion::FailForVet(f) => f.is_report(
                self.packages@,
                self.criteria_mapper,
                suggest,
                r,
            ),
        }
    }

    /// Tells the conclusion, and the suggestions if packages failed to be vetted.
    pub fn print_human(&self, suggest: Option<&Suggest>) -> (r: Vec<Span>)
        requires
            self.wf(),
            opt_suggest_tells(self.packages@, suggest),
        ensures
            self.is_report(suggest, sorted_map::views(r@)),
    {
        let mut out: Vec<Span> = Vec::new();
        match &self.conclusion {
            Conclusion::Success(s) => {
                let t = s.print_human();
                push_span(&mut out, Style::Plain, t);
                assert(sorted_map::views(out@) =~= seq![plain(t@)]);
            },
            Conclusion::FailForViolationConflict(f) => {
                let t = f.print_human(&self.packages);
                push_span(&mut out, Style::Plain, t);
                assert(sorted_map::views(out@) =~= seq![plain(t@)]);
            },
            Conclusion::FailForVet(f) => {
                out = f.print_human(&self.packages, &self.criteria_mapper, suggest);
            },
        }
        out
    }

    /// Tells the suggestions only.
    pub fn print_suggest_human(&self, suggest: Option<&Suggest>) -> (r: Vec<Span>)
        requires
            opt_suggest_tells(self.packages@, suggest),
        ensures
            sorted_map::views(r@) == match suggest {
                Some(s) => suggest_spans(self.packages@, *s),
                None => seq![plain("Nothing to suggest, you're fully audited!\n"@)],
            },
    {
        match suggest {
            Some(s) => s.print_human(&self.packages),
            None => {
                let mut out: Vec<Span> = Vec::new();
                push_span(
                    &mut out,
                    Style::Plain,
                    "Nothing to suggest, you're fully audited!\n".to_owned(),
                );
                assert(sorted_map::views(out@) =~= seq![
                    plain("Nothing to suggest, you're fully audited!\n"@),
                ]);
                out
            },
        }
    }
}

} // verus!
