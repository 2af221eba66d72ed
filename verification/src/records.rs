//! The records of the audit files.

use vstd::prelude::*;
use crate::order::Keyed;
use crate::sorted_map::SortedMap;
use crate::text;
use crate::text::{
    clone_opt_text, clone_texts, push_opt_text_key, push_text_key, push_texts_key, text_eq,
};
use crate::version;
use crate::version::{Version, VetVersion, VetVersionView};

verus! {

/// The integer that stands for a truth value in a key: `false` comes first.
pub open spec fn flag(b: bool) -> u64 {
    if b {
        1
    } else {
        0
    }
}

/// The key of an optional truth value, with an absent one first.
pub open spec fn opt_flag_key(o: Option<bool>) -> Seq<u64> {
    match o {
        None => seq![0u64],
        Some(b) => seq![1u64, flag(b)],
    }
}

fn push_flag(b: bool, out: &mut Vec<u64>)
    ensures
        final(out)@ == old(out)@ + seq![flag(b)],
{
    let ghost start = out@;
    if b {
        out.push(1);
    } else {
        out.push(0);
    }
    assert(out@ =~= start + seq![flag(b)]);
}

fn push_opt_flag(o: Option<bool>, out: &mut Vec<u64>)
    ensures
        final(out)@ == old(out)@ + opt_flag_key(o),
{
    let ghost start = out@;
    match o {
        None => {
            out.push(0);
        },
        Some(b) => {
            out.push(1);
            push_flag(b, out);
        },
    }
    assert(out@ =~= start + opt_flag_key(o));
}

/// A requirement on versions, such as `>=1.0, <1.4`.
#[derive(Debug, PartialEq, Eq)]
pub struct VersionReq {
    pub text: String,
}

impl Clone for VersionReq {
    fn clone(&self) -> (r: VersionReq)
        ensures
            r.text == self.text,
    {
        VersionReq { text: self.text.clone() }
    }
}

/// What an audit says something about.
#[derive(Debug, PartialEq, Eq)]
pub enum AuditKind {
    /// One version was audited in full.
    Full { version: VetVersion },
    /// The changes between two versions were audited.
    Delta { from: VetVersion, to: VetVersion },
    /// The versions in a range violate the criteria.
    Violation { violation: VersionReq },
}

/// The contents of an [`AuditKind`].
#[verifier::ext_equal]
pub enum AuditKindView {
    Full { version: VetVersionView },
    Delta { from: VetVersionView, to: VetVersionView },
    Violation { violation: Seq<char> },
}

impl View for AuditKind {
    type V = AuditKindView;

    open spec fn view(&self) -> AuditKindView {
        match self {
            AuditKind::Full { version } => AuditKindView::Full { version: version@ },
            AuditKind::Delta { from, to } => AuditKindView::Delta { from: from@, to: to@ },
            AuditKind::Violation { violation } => AuditKindView::Violation {
                violation: violation.text@,
            },
        }
    }
}

impl Clone for AuditKind {
    fn clone(&self) -> (r: AuditKind)
        ensures
            r@ == self@,
    {
        match self {
            AuditKind::Full { version } => AuditKind::Full { version: version.clone() },
            AuditKind::Delta { from, to } => AuditKind::Delta {
                from: from.clone(),
                to: to.clone(),
            },
            AuditKind::Violation { violation } => AuditKind::Violation {
                violation: violation.clone(),
            },
        }
    }
}

/// The key that orders what audits speak of: full audits, then deltas, then
/// violations.
pub open spec fn audit_kind_key(k: AuditKindView) -> Seq<u64> {
    match k {
        AuditKindView::Full { version } => seq![0u64] + version::vet_version_key(version),
        AuditKindView::Delta { from, to } => seq![1u64] + version::vet_version_key(from)
            + version::vet_version_key(to),
        AuditKindView::Violation { violation } => seq![2u64] + text::text_key(violation),
    }
}

impl Keyed for AuditKind {
    open spec fn sort_key(&self) -> Seq<u64> {
        audit_kind_key(self@)
    }

    fn push_key(&self, out: &mut Vec<u64>) {
        let ghost start = out@;
        match self {
            AuditKind::Full { version } => {
                out.push(0);
                version.push_key(out);
            },
            AuditKind::Delta { from, to } => {
                out.push(1);
                from.push_key(out);
                to.push_key(out);
            },
            AuditKind::Violation { violation } => {
                out.push(2);
                push_text_key(violation.text.as_str(), out);
            },
        }
        assert(self.sort_key() == audit_kind_key(self@));
        assert(out@ =~= start + self.sort_key());
    }
}

/// Who published a release.
#[derive(Debug, PartialEq, Eq)]
pub enum CratesSourceId {
    /// A user of the registry.
    User { user_id: u64 },
    /// A repository that publishes through "Trusted Publishing".
    TrustedPublisher { publisher: String },
}

/// The contents of a [`CratesSourceId`].
#[verifier::ext_equal]
pub enum CratesSourceIdView {
    User { user_id: u64 },
    TrustedPublisher { publisher: Seq<char> },
}

impl View for CratesSourceId {
    type V = CratesSourceIdView;

    open spec fn view(&self) -> CratesSourceIdView {
        match self {
            CratesSourceId::User { user_id } => CratesSourceIdView::User { user_id: *user_id },
            CratesSourceId::TrustedPublisher {
                publisher,
            } => CratesSourceIdView::TrustedPublisher { publisher: publisher@ },
        }
    }
}

impl Clone for CratesSourceId {
    fn clone(&self) -> (r: CratesSourceId)
        ensures
            r@ == self@,
    {
        match self {
            CratesSourceId::User { user_id } => CratesSourceId::User { user_id: *user_id },
            CratesSourceId::TrustedPublisher { publisher } => CratesSourceId::TrustedPublisher {
                publisher: publisher.clone(),
            },
        }
    }
}

/// Whether two sources are the same.
pub fn source_eq(a: &CratesSourceId, b: &CratesSourceId) -> (r: bool)
    ensures
        r == (a@ == b@),
{
    match (a, b) {
        (CratesSourceId::User { user_id: x }, CratesSourceId::User { user_id: y }) => *x == *y,
        (
            CratesSourceId::TrustedPublisher { publisher: x },
            CratesSourceId::TrustedPublisher { publisher: y },
        ) => text_eq(x.as_str(), y.as_str()),
        _ => false,
    }
}

/// The key that orders sources: users by their number, then publishers.
pub open spec fn source_key(s: CratesSourceIdView) -> Seq<u64> {
    match s {
        CratesSourceIdView::User { user_id } => seq![0u64, user_id],
        CratesSourceIdView::TrustedPublisher { publisher } => seq![1u64] + text::text_key(publisher),
    }
}

impl Keyed for CratesSourceId {
    open spec fn sort_key(&self) -> Seq<u64> {
        source_key(self@)
    }

    fn push_key(&self, out: &mut Vec<u64>) {
        let ghost start = out@;
        match self {
            CratesSourceId::User { user_id } => {
                out.push(0);
                out.push(*user_id);
            },
            CratesSourceId::TrustedPublisher { publisher } => {
                out.push(1);
                push_text_key(publisher.as_str(), out);
            },
        }
        assert(self.sort_key() == source_key(self@));
        assert(out@ =~= start + self.sort_key());
    }
}

/// The declaration of a criterion.
#[derive(Debug, PartialEq, Eq)]
pub struct CriteriaEntry {
    /// What the criterion demands.
    pub description: Option<String>,
    /// The names of the criteria that this one implies.
    pub implies: Vec<String>,
}

/// The contents of a [`CriteriaEntry`].
#[verifier::ext_equal]
pub struct CriteriaEntryView {
    pub description: Option<Seq<char>>,
    pub implies: Seq<Seq<char>>,
}

impl View for CriteriaEntry {
    type V = CriteriaEntryView;

    open spec fn view(&self) -> CriteriaEntryView {
        CriteriaEntryView {
            description: text::opt_text(self.description),
            implies: text::texts(self.implies@),
        }
    }
}

impl Clone for CriteriaEntry {
    fn clone(&self) -> (r: CriteriaEntry)
        ensures
            r@ == self@,
    {
        CriteriaEntry {
            description: clone_opt_text(&self.description),
            implies: clone_texts(&self.implies),
        }
    }
}

/// An audit of a package.
#[derive(Debug, PartialEq, Eq)]
pub struct AuditEntry {
    /// Who made the audit.
    pub who: Vec<String>,
    /// The criteria that the audit is about.
    pub criteria: Vec<String>,
    pub kind: AuditKind,
    /// Whether other projects may import the audit.
    pub importable: bool,
    pub notes: Option<String>,
    /// Where the audit was aggregated from.
    pub aggregated_from: Vec<String>,
    /// Whether the audit was imported, but is not stored yet.
    pub is_fresh_import: bool,
}

/// The contents of an [`AuditEntry`].
#[verifier::ext_equal]
pub struct AuditEntryView {
    pub who: Seq<Seq<char>>,
    pub criteria: Seq<Seq<char>>,
    pub kind: AuditKindView,
    pub importable: bool,
    pub notes: Option<Seq<char>>,
    pub aggregated_from: Seq<Seq<char>>,
    pub is_fresh_import: bool,
}

impl View for AuditEntry {
    type V = AuditEntryView;

    open spec fn view(&self) -> AuditEntryView {
        AuditEntryView {
            who: text::texts(self.who@),
            criteria: text::texts(self.criteria@),
            kind: self.kind@,
            importable: self.importable,
            notes: text::opt_text(self.notes),
            aggregated_from: text::texts(self.aggregated_from@),
            is_fresh_import: self.is_fresh_import,
        }
    }
}

impl Clone for AuditEntry {
    fn clone(&self) -> (r: AuditEntry)
        ensures
            r@ == self@,
    {
        AuditEntry {
            who: clone_texts(&self.who),
            criteria: clone_texts(&self.criteria),
            kind: self.kind.clone(),
            importable: self.importable,
            notes: clone_opt_text(&self.notes),
            aggregated_from: clone_texts(&self.aggregated_from),
            is_fresh_import: self.is_fresh_import,
        }
    }
}

/// The key that orders audits.
pub open spec fn audit_entry_key(v: AuditEntryView) -> Seq<u64> {
    audit_kind_key(v.kind) + text::texts_key(v.criteria) + text::texts_key(v.who) + seq![flag(v.importable)] + text::opt_text_key(v.notes) + text::texts_key(v.aggregated_from) + seq![flag(v.is_fresh_import)]
}

impl Keyed for AuditEntry {
    open spec fn sort_key(&self) -> Seq<u64> {
        audit_entry_key(self@)
    }

    fn push_key(&self, out: &mut Vec<u64>) {
        let ghost start = out@;
        self.kind.push_key(out);
        push_texts_key(&self.criteria, out);
        push_texts_key(&self.who, out);
        push_flag(self.importable, out);
        push_opt_text_key(&self.notes, out);
        push_texts_key(&self.aggregated_from, out);
        push_flag(self.is_fresh_import, out);
        assert(out@ =~= start + audit_entry_key(self@));
    }
}

/// An audit of all releases that a source published in a period.
#[derive(Debug, PartialEq, Eq)]
pub struct WildcardEntry {
    /// Who made the audit.
    pub who: Vec<String>,
    /// The criteria that the audit is about.
    pub criteria: Vec<String>,
    /// Who published the releases.
    pub source: CratesSourceId,
    /// The first day of the period, counted in days.
    pub start: u64,
    /// The day after the last day of the period.
    pub end: u64,
    /// Whether to suggest a renewal when the period ends.
    pub renew: Option<bool>,
    pub notes: Option<String>,
    /// Where the audit was aggregated from.
    pub aggregated_from: Vec<String>,
    /// Whether the audit was imported, but is not stored yet.
    pub is_fresh_import: bool,
}

/// The contents of a [`WildcardEntry`].
#[verifier::ext_equal]
pub struct WildcardEntryView {
    pub who: Seq<Seq<char>>,
    pub criteria: Seq<Seq<char>>,
    pub source: CratesSourceIdView,
    pub start: u64,
    pub end: u64,
    pub renew: Option<bool>,
    pub notes: Option<Seq<char>>,
    pub aggregated_from: Seq<Seq<char>>,
    pub is_fresh_import: bool,
}

impl View for WildcardEntry {
    type V = WildcardEntryView;

    open spec fn view(&self) -> WildcardEntryView {
        WildcardEntryView {
            who: text::texts(self.who@),
            criteria: text::texts(self.criteria@),
            source: self.source@,
            start: self.start,
            end: self.end,
            renew: self.renew,
            notes: text::opt_text(self.notes),
            aggregated_from: text::texts(self.aggregated_from@),
            is_fresh_import: self.is_fresh_import,
        }
    }
}

impl Clone for WildcardEntry {
    fn clone(&self) -> (r: WildcardEntry)
        ensures
            r@ == self@,
    {
        WildcardEntry {
            who: clone_texts(&self.who),
            criteria: clone_texts(&self.criteria),
            source: self.source.clone(),
            start: self.start,
            end: self.end,
            renew: self.renew,
            notes: clone_opt_text(&self.notes),
            aggregated_from: clone_texts(&self.aggregated_from),
            is_fresh_import: self.is_fresh_import,
        }
    }
}

/// The key that orders wildcard audits.
pub open spec fn wildcard_entry_key(v: WildcardEntryView) -> Seq<u64> {
    source_key(v.source) + seq![v.start] + seq![v.end] + text::texts_key(v.criteria) + text::texts_key(v.who) + opt_flag_key(v.renew) + text::opt_text_key(v.notes) + text::texts_key(v.aggregated_from) + seq![flag(v.is_fresh_import)]
}

impl Keyed for WildcardEntry {
    open spec fn sort_key(&self) -> Seq<u64> {
        wildcard_entry_key(self@)
    }

    fn push_key(&self, out: &mut Vec<u64>) {
        let ghost start = out@;
        self.source.push_key(out);
        out.push(self.start);
        out.push(self.end);
        push_texts_key(&self.criteria, out);
        push_texts_key(&self.who, out);
        push_opt_flag(self.renew, out);
        push_opt_text_key(&self.notes, out);
        push_texts_key(&self.aggregated_from, out);
        push_flag(self.is_fresh_import, out);
        assert(out@ =~= start + wildcard_entry_key(self@));
    }
}

/// The decision to trust the releases that a source published in a period.
#[derive(Debug, PartialEq, Eq)]
pub struct TrustEntry {
    /// The criteria that the source is trusted for.
    pub criteria: Vec<String>,
    /// Who published the releases.
    pub source: CratesSourceId,
    /// The first day of the period, counted in days.
    pub start: u64,
    /// The day after the last day of the period.
    pub end: u64,
    pub notes: Option<String>,
    /// Where the decision was aggregated from.
    pub aggregated_from: Vec<String>,
}

/// The contents of a [`TrustEntry`].
#[verifier::ext_equal]
pub struct TrustEntryView {
    pub criteria: Seq<Seq<char>>,
    pub source: CratesSourceIdView,
    pub start: u64,
    pub end: u64,
    pub notes: Option<Seq<char>>,
    pub aggregated_from: Seq<Seq<char>>,
}

impl View for TrustEntry {
    type V = TrustEntryView;

    open spec fn view(&self) -> TrustEntryView {
        TrustEntryView {
            criteria: text::texts(self.criteria@),
            source: self.source@,
            start: self.start,
            end: self.end,
            notes: text::opt_text(self.notes),
            aggregated_from: text::texts(self.aggregated_from@),
        }
    }
}

impl Clone for TrustEntry {
    fn clone(&self) -> (r: TrustEntry)
        ensures
            r@ == self@,
    {
        TrustEntry {
            criteria: clone_texts(&self.criteria),
            source: self.source.clone(),
            start: self.start,
            end: self.end,
            notes: clone_opt_text(&self.notes),
            aggregated_from: clone_texts(&self.aggregated_from),
        }
    }
}

/// A release of a package.
#[derive(Debug, PartialEq, Eq)]
pub struct CratesPublisher {
    pub version: VetVersion,
    /// The day of the release, counted in days.
    pub when: u64,
    /// Who published the release.
    pub source: CratesSourceId,
    /// Whether the release was fetched, but is not stored yet.
    pub is_fresh_import: bool,
}

/// The contents of a [`CratesPublisher`].
#[verifier::ext_equal]
pub struct CratesPublisherView {
    pub version: VetVersionView,
    pub when: u64,
    pub source: CratesSourceIdView,
    pub is_fresh_import: bool,
}

impl View for CratesPublisher {
    type V = CratesPublisherView;

    open spec fn view(&self) -> CratesPublisherView {
        CratesPublisherView {
            version: self.version@,
            when: self.when,
            source: self.source@,
            is_fresh_import: self.is_fresh_import,
        }
    }
}

impl Clone for CratesPublisher {
    fn clone(&self) -> (r: CratesPublisher)
        ensures
            r@ == self@,
    {
        CratesPublisher {
            version: self.version.clone(),
            when: self.when,
            source: self.source.clone(),
            is_fresh_import: self.is_fresh_import,
        }
    }
}

/// The key that orders releases.
pub open spec fn publisher_key(v: CratesPublisherView) -> Seq<u64> {
    version::vet_version_key(v.version) + seq![v.when] + source_key(v.source) + seq![flag(v.is_fresh_import)]
}

impl Keyed for CratesPublisher {
    open spec fn sort_key(&self) -> Seq<u64> {
        publisher_key(self@)
    }

    fn push_key(&self, out: &mut Vec<u64>) {
        let ghost start = out@;
        self.version.push_key(out);
        out.push(self.when);
        self.source.push_key(out);
        push_flag(self.is_fresh_import, out);
        assert(out@ =~= start + publisher_key(self@));
    }
}

/// A version that is audited as if it were another, published version.
#[derive(Debug, PartialEq, Eq)]
pub struct UnpublishedEntry {
    pub version: VetVersion,
    /// The published version that stands for it.
    pub audited_as: VetVersion,
    /// Whether the version was not published when last seen.
    pub still_unpublished: bool,
    /// Whether the entry was made, but is not stored yet.
    pub is_fresh_import: bool,
}

/// The contents of an [`UnpublishedEntry`].
#[verifier::ext_equal]
pub struct UnpublishedEntryView {
    pub version: VetVersionView,
    pub audited_as: VetVersionView,
    pub still_unpublished: bool,
    pub is_fresh_import: bool,
}

impl View for UnpublishedEntry {
    type V = UnpublishedEntryView;

    open spec fn view(&self) -> UnpublishedEntryView {
        UnpublishedEntryView {
            version: self.version@,
            audited_as: self.audited_as@,
            still_unpublished: self.still_unpublished,
            is_fresh_import: self.is_fresh_import,
        }
    }
}

impl Clone for UnpublishedEntry {
    fn clone(&self) -> (r: UnpublishedEntry)
        ensures
            r@ == self@,
    {
        UnpublishedEntry {
            version: self.version.clone(),
            audited_as: self.audited_as.clone(),
            still_unpublished: self.still_unpublished,
            is_fresh_import: self.is_fresh_import,
        }
    }
}

/// The key that orders unpublished entries.
pub open spec fn unpublished_key(v: UnpublishedEntryView) -> Seq<u64> {
    version::vet_version_key(v.version) + version::vet_version_key(v.audited_as) + seq![flag(v.still_unpublished)] + seq![flag(v.is_fresh_import)]
}

impl Keyed for UnpublishedEntry {
    open spec fn sort_key(&self) -> Seq<u64> {
        unpublished_key(self@)
    }

    fn push_key(&self, out: &mut Vec<u64>) {
        let ghost start = out@;
        self.version.push_key(out);
        self.audited_as.push_key(out);
        push_flag(self.still_unpublished, out);
        push_flag(self.is_fresh_import, out);
        assert(out@ =~= start + unpublished_key(self@));
    }
}

/// A version that is exempted from audits.
#[derive(Debug, PartialEq, Eq)]
pub struct ExemptedDependency {
    pub version: VetVersion,
    /// The criteria that the version is exempted from.
    pub criteria: Vec<String>,
    /// Whether to suggest an audit in place of the exemption.
    pub suggest: bool,
    pub notes: Option<String>,
}

/// The contents of an [`ExemptedDependency`].
#[verifier::ext_equal]
pub struct ExemptedDependencyView {
    pub version: VetVersionView,
    pub criteria: Seq<Seq<char>>,
    pub suggest: bool,
    pub notes: Option<Seq<char>>,
}

impl View for ExemptedDependency {
    type V = ExemptedDependencyView;

    open spec fn view(&self) -> ExemptedDependencyView {
        ExemptedDependencyView {
            version: self.version@,
            criteria: text::texts(self.criteria@),
            suggest: self.suggest,
            notes: text::opt_text(self.notes),
        }
    }
}

impl Clone for ExemptedDependency {
    fn clone(&self) -> (r: ExemptedDependency)
        ensures
            r@ == self@,
    {
        ExemptedDependency {
            version: self.version.clone(),
            criteria: clone_texts(&self.criteria),
            suggest: self.suggest,
            notes: clone_opt_text(&self.notes),
        }
    }
}

/// The key that orders exemptions.
pub open spec fn exemption_key(v: ExemptedDependencyView) -> Seq<u64> {
    version::vet_version_key(v.version) + text::texts_key(v.criteria) + seq![flag(v.suggest)] + text::opt_text_key(v.notes)
}

impl Keyed for ExemptedDependency {
    open spec fn sort_key(&self) -> Seq<u64> {
        exemption_key(self@)
    }

    fn push_key(&self, out: &mut Vec<u64>) {
        let ghost start = out@;
        self.version.push_key(out);
        push_texts_key(&self.criteria, out);
        push_flag(self.suggest, out);
        push_opt_text_key(&self.notes, out);
        assert(out@ =~= start + exemption_key(self@));
    }
}

/// The audits of a project.
#[derive(Debug, PartialEq, Eq)]
pub struct AuditsFile {
    /// The criteria that the project declares.
    pub criteria: SortedMap<CriteriaEntry>,
    /// The wildcard audits of each package.
    pub wildcard_audits: SortedMap<Vec<WildcardEntry>>,
    /// The audits of each package.
    pub audits: SortedMap<Vec<AuditEntry>>,
    /// The sources that are trusted for each package.
    pub trusted: SortedMap<Vec<TrustEntry>>,
}

/// What was imported from other projects and from the registry.
#[derive(Debug, PartialEq, Eq)]
pub struct ImportsFile {
    /// The unpublished entries of each package.
    pub unpublished: SortedMap<Vec<UnpublishedEntry>>,
    /// The known releases of each package.
    pub publisher: SortedMap<Vec<CratesPublisher>>,
    /// The audits of each project that audits are imported from.
    pub audits: SortedMap<AuditsFile>,
}

/// The policy for one package.
#[derive(Debug, PartialEq, Eq)]
pub struct PolicyEntry {
    /// Whether to audit the package as if it came from the registry.
    pub audit_as_crates_io: Option<bool>,
    /// The criteria that the package needs.
    pub criteria: Option<Vec<String>>,
    /// The criteria that the package needs as a development dependency.
    pub dev_criteria: Option<Vec<String>>,
    /// The criteria that dependencies of the package need.
    pub dependency_criteria: SortedMap<Vec<String>>,
    /// The features that only development builds enable.
    pub dev_features: Vec<String>,
}

/// The policy for all versions of a package.
#[derive(Debug, PartialEq, Eq)]
pub enum PackagePolicyEntry {
    /// Each version has a policy of its own.
    Versioned { version: Vec<(VetVersion, PolicyEntry)> },
    /// One policy for all versions.
    Unversioned(PolicyEntry),
}

/// The criteria that apply where no package policy does.
#[derive(Debug, PartialEq, Eq)]
pub struct RootPolicy {
    /// The criteria that dependencies need.
    pub criteria: Option<Vec<String>>,
    /// The criteria that development dependencies need.
    pub dev_criteria: Option<Vec<String>>,
}

/// The configuration of a project.
#[derive(Debug, PartialEq, Eq)]
pub struct ConfigFile {
    pub root_policy: RootPolicy,
    /// The policies, by package name.
    pub policy: SortedMap<PackagePolicyEntry>,
    /// The exemptions of each package.
    pub exemptions: SortedMap<Vec<ExemptedDependency>>,
}

/// The configuration, the audits and the imports of a project.
#[derive(Debug, PartialEq, Eq)]
pub struct Store {
    pub config: ConfigFile,
    pub audits: AuditsFile,
    /// The imports as they are stored.
    pub imports: ImportsFile,
    /// The imports as they were fetched, if they were.
    pub live_imports: Option<ImportsFile>,
}

impl Store {
    /// The imports in use: those that were fetched, or else those stored.
    pub open spec fn live(&self) -> ImportsFile {
        match self.live_imports {
            Some(live) => live,
            None => self.imports,
        }
    }

    /// The store as it is read again, without fetching imports.
    pub open spec fn stored(self) -> Store {
        Store { live_imports: None, ..self }
    }

    /// The imports in use: those that were fetched, or else those stored.
    pub fn live_or_stored(&self) -> (r: &ImportsFile)
        ensures
            *r == self.live(),
    {
        match &self.live_imports {
            Some(live) => live,
            None => &self.imports,
        }
    }

    /// The audits of each project that audits are imported from.
    pub fn imported_audits(&self) -> (r: &SortedMap<AuditsFile>)
        ensures
            *r == self.live().audits,
    {
        &self.live_or_stored().audits
    }

    /// The known releases of each package.
    pub fn publishers(&self) -> (r: &SortedMap<Vec<CratesPublisher>>)
        ensures
            *r == self.live().publisher,
    {
        &self.live_or_stored().publisher
    }

    /// The unpublished entries of each package.
    pub fn unpublished(&self) -> (r: &SortedMap<Vec<UnpublishedEntry>>)
        ensures
            *r == self.live().unpublished,
    {
        &self.live_or_stored().unpublished
    }
}

/// Whether a semantic version meets a requirement, both given as text. `None`
/// if one of the two cannot be read.
pub uninterp spec fn requirement_met(requirement: Seq<char>, version: Seq<char>) -> Option<bool>;

/// Calls `VersionReq::parse`, `Version::parse` and `VersionReq::matches` of
/// `semver`, which `guppy` hands on. What comes back depends on the two texts
/// alone; which versions meet a requirement is left to `semver`.
#[verifier::external_body]
fn semver_matches(requirement: &str, version: &str) -> (r: Option<bool>)
    ensures
        r == requirement_met(requirement@, version@),
{
    let requirement = guppy::VersionReq::parse(requirement).ok()?;
    let version = guppy::Version::parse(version).ok()?;
    Some(requirement.matches(&version))
}

/// Whether a version lies in the range of a violation. Only the semantic
/// version counts, not the git revision.
pub open spec fn req_matches(req: Seq<char>, v: VetVersionView) -> bool {
    requirement_met(req, version::semver_text(v.semver)) == Some(true)
}

impl VersionReq {
    /// Whether a version meets the requirement.
    pub fn matches(&self, version: &VetVersion) -> (r: bool)
        ensures
            r == req_matches(self.text@, version@),
    {
        let text: String = version.semver.to_text();
        match semver_matches(self.text.as_str(), text.as_str()) {
            Some(b) => b,
            None => false,
        }
    }
}

} // verus!
