//! Bringing the store up to date.

use vstd::prelude::*;
use guppy::graph::cargo::CargoResolverVersion;
use guppy::graph::PackageGraph;
use crate::criteria;
use crate::criteria::{CriteriaMapper, CriteriaSet};
use crate::edges::{DeltaEdgeOriginView, RequiredEntry, RequiredEntryView, SearchMode};
use crate::order;
use crate::order::sort;
use crate::package_graph;
use crate::package_graph::read_packages;
use crate::packages::Package;
use crate::records::{
    AuditEntry, AuditKind, AuditsFile, ConfigFile, CriteriaEntry, ExemptedDependency,
    ExemptedDependencyView, ImportsFile, Store, UnpublishedEntry, UnpublishedEntryView, WildcardEntry,
};
use crate::required;
use crate::required::{resolve_package_required_entries, Demand, RequiredEntries};
use crate::requirements;
use crate::requirements::resolve_requirements;
use crate::resolve;
use crate::retain;
use crate::retain::{dedup_entries, retain_entries};
use crate::sorted_map;
use crate::sorted_map::SortedMap;
use crate::text::clone_opt_text;

verus! {

/// How the entries for a package are brought up to date.
#[derive(Debug, Copy, Clone, PartialEq, Eq, Structural)]
pub struct UpdateMode {
    /// Which entries are preferred.
    pub search_mode: SearchMode,
    /// Whether exemptions that are not needed are dropped.
    pub prune_exemptions: bool,
    /// Whether own audits that others may not use and that are not needed are
    /// dropped.
    pub prune_non_importable_audits: bool,
    /// Whether imports that are not needed are dropped.
    pub prune_imports: bool,
}

/// How the entries for each package are brought up to date.
#[derive(Debug)]
pub struct UpdateModes {
    /// The modes of some packages, by name.
    pub named: SortedMap<UpdateMode>,
    /// The mode of all other packages.
    pub other: UpdateMode,
}

impl UpdateModes {
    /// The mode of a package.
    pub open spec fn at(&self, name: Seq<char>) -> UpdateMode {
        match self.named.get_spec(name) {
            Some(mode) => mode,
            None => self.other,
        }
    }

    /// The mode of a package.
    pub fn for_package(&self, name: &str) -> (r: UpdateMode)
        ensures
            r == self.at(name@),
    {
        match self.named.get(name) {
            Some(mode) => *mode,
            None => self.other,
        }
    }

    /// The same mode for all packages.
    pub fn uniform(mode: UpdateMode) -> (r: UpdateModes)
        ensures
            forall|name: Seq<char>| #[trigger] r.at(name) == mode,
    {
        UpdateModes { named: SortedMap::new(), other: mode }
    }
}

/// What is to change in a store.
#[derive(Debug)]
pub struct StoreUpdates {
    pub audits: SortedMap<Vec<AuditEntry>>,
    pub imports: ImportsFile,
    pub exemptions: SortedMap<Vec<ExemptedDependency>>,
}

impl StoreUpdates {
    /// The store with the updates: its own audits, its imports and its exemptions
    /// change, and nothing else.
    pub open spec fn applied(self, store: Store) -> Store {
        Store {
            config: ConfigFile { exemptions: self.exemptions, ..store.config },
            audits: AuditsFile { audits: self.audits, ..store.audits },
            imports: self.imports,
            live_imports: store.live_imports,
        }
    }

    /// Changes the store.
    pub fn apply(self, store: &mut Store)
        ensures
            *final(store) == self.applied(*old(store)),
    {
        store.audits.audits = self.audits;
        store.imports = self.imports;
        store.config.exemptions = self.exemptions;
    }
}

/// Whether an entry was fetched and is not imported yet.
pub open spec fn is_fresh(store: Store, name: Seq<char>, e: RequiredEntryView) -> bool {
    let live = store.live();
    match e {
        RequiredEntryView::Audit { import_index, audit_index } => {
            let list = sorted_map::views_at(
                live.audits.entries()[import_index as int].1.audits,
                name,
            );
            import_index < live.audits.entries().len() && audit_index < list.len()
                && list[audit_index as int].is_fresh_import
        },
        RequiredEntryView::WildcardAudit { import_index, audit_index } => {
            let list = sorted_map::views_at(
                live.audits.entries()[import_index as int].1.wildcard_audits,
                name,
            );
            import_index < live.audits.entries().len() && audit_index < list.len()
                && list[audit_index as int].is_fresh_import
        },
        RequiredEntryView::Publisher { publisher_index } => {
            let list = sorted_map::views_at(live.publisher, name);
            publisher_index < list.len() && list[publisher_index as int].is_fresh_import
        },
        _ => false,
    }
}

/// Whether imports that are not needed are dropped: on request, and when
/// something new is imported for the package.
pub open spec fn prunes_imports(
    store: Store,
    required: Option<RequiredEntries>,
    mode: UpdateMode,
    name: Seq<char>,
) -> bool {
    mode.prune_imports || (required matches Some(entries) && exists|e: RequiredEntryView|
        entries.has(e) && #[trigger] is_fresh(store, name, e))
}

/// What decides which entries of a store to keep.
pub struct UpdateModel {
    pub store: Store,
    pub mapper: CriteriaMapper,
    /// For each name of a package of the build, the entries that are needed, or
    /// `None` if the packages cannot be vetted.
    pub required: SortedMap<Option<RequiredEntries>>,
    /// How the entries for each name are brought up to date.
    pub mode: UpdateModes,
}

impl UpdateModel {
    /// Whether a package of the build has the name.
    pub open spec fn is_built(self, name: Seq<char>) -> bool {
        self.required.get_spec(name) is Some
    }

    /// Whether the packages of the name cannot be vetted.
    pub open spec fn fails(self, name: Seq<char>) -> bool {
        self.required.get_spec(name) matches Some(entries) && entries is None
    }

    /// Whether an entry is needed.
    pub open spec fn needs(self, name: Seq<char>, e: RequiredEntryView) -> bool {
        self.required.get_spec(name) matches Some(entries) && entries is Some && entries->0.has(e)
    }

    /// The criteria that an entry is needed for.
    pub open spec fn criteria_for(self, name: Seq<char>, e: RequiredEntryView) -> CriteriaSet {
        match self.required.get_spec(name) {
            Some(Some(entries)) => match entries.criteria_for(e) {
                Some(set) => set,
                None => CriteriaSet { bits: 0 },
            },
            _ => CriteriaSet { bits: 0 },
        }
    }

    /// Whether imports that are not needed are dropped.
    pub open spec fn prunes_imports(self, name: Seq<char>) -> bool {
        prunes_imports(
            self.store,
            match self.required.get_spec(name) {
                Some(entries) => entries,
                None => None,
            },
            self.mode.at(name),
            name,
        )
    }

    /// Whether an imported entry is kept: an old one if nothing is dropped, and
    /// otherwise one that is needed. Of packages that cannot be vetted all old
    /// entries are kept.
    pub open spec fn keeps(
        self,
        name: Seq<char>,
        prune: bool,
        is_fresh: bool,
        e: RequiredEntryView,
    ) -> bool {
        if !prune && !is_fresh {
            true
        } else if self.fails(name) {
            !is_fresh
        } else {
            self.needs(name, e)
        }
    }

    /// Which wildcard audits of an import are kept.
    pub open spec fn wildcard_flags(self, import_index: int, name: Seq<char>) -> Seq<bool> {
        let list = sorted_map::views_at(
            self.store.live().audits.entries()[import_index].1.wildcard_audits,
            name,
        );
        Seq::new(
            list.len(),
            |j: int|
                self.keeps(
                    name,
                    self.prunes_imports(name),
                    list[j].is_fresh_import,
                    RequiredEntryView::WildcardAudit {
                        import_index: import_index as usize,
                        audit_index: j as usize,
                    },
                ),
        )
    }

    /// Which audits of an import are kept. Violations are kept for all packages
    /// of the build.
    pub open spec fn audit_flags(self, import_index: int, name: Seq<char>) -> Seq<bool> {
        let list = sorted_map::views_at(
            self.store.live().audits.entries()[import_index].1.audits,
            name,
        );
        Seq::new(
            list.len(),
            |j: int|
                if list[j].kind is Violation && (self.prunes_imports(name)
                    || list[j].is_fresh_import) {
                    self.is_built(name)
                } else {
                    self.keeps(
                        name,
                        self.prunes_imports(name),
                        list[j].is_fresh_import,
                        RequiredEntryView::Audit {
                            import_index: import_index as usize,
                            audit_index: j as usize,
                        },
                    )
                },
        )
    }

    /// Which releases are kept.
    pub open spec fn publisher_flags(self, name: Seq<char>) -> Seq<bool> {
        let list = sorted_map::views_at(self.store.live().publisher, name);
        Seq::new(
            list.len(),
            |j: int|
                self.keeps(
                    name,
                    self.prunes_imports(name),
                    list[j].is_fresh_import,
                    RequiredEntryView::Publisher { publisher_index: j as usize },
                ),
        )
    }

    /// Which unpublished entries are kept. They go with the exemptions.
    pub open spec fn unpublished_flags(self, name: Seq<char>) -> Seq<bool> {
        let list = sorted_map::views_at(self.store.live().unpublished, name);
        Seq::new(
            list.len(),
            |j: int|
                self.keeps(
                    name,
                    self.mode.at(name).prune_exemptions,
                    list[j].is_fresh_import,
                    RequiredEntryView::Unpublished { unpublished_index: j as usize },
                ),
        )
    }

    /// Which of the own audits are kept: if they are pruned, those that others
    /// may use and those that are needed.
    pub open spec fn local_flags(self, name: Seq<char>) -> Seq<bool> {
        let list = sorted_map::views_at(self.store.audits.audits, name);
        Seq::new(
            list.len(),
            |j: int|
                !(self.mode.at(name).prune_non_importable_audits && self.is_built(name)
                    && !self.fails(name)) || list[j].importable || self.needs(
                    name,
                    RequiredEntryView::LocalAudit { audit_index: j as usize },
                ),
        )
    }

    /// The criteria that an exemption is kept for.
    pub open spec fn useful_criteria(
        self,
        name: Seq<char>,
        k: int,
        entry: ExemptedDependencyView,
    ) -> CriteriaSet {
        let original = criteria::criteria_of(self.mapper, entry.criteria);
        let useful = if self.fails(name) {
            original
        } else {
            self.criteria_for(name, RequiredEntryView::Exemption { exemption_index: k as usize })
        };
        if self.mode.at(name).prune_exemptions {
            useful
        } else {
            useful.union(original)
        }
    }

    /// What becomes of an exemption. One that is not useful is dropped. One that
    /// is not to be suggested is not extended; what it lacks is exempted by
    /// another one before it.
    pub open spec fn revised(self, name: Seq<char>, k: int, entry: ExemptedDependencyView) -> Seq<
        ExemptedDependencyView,
    > {
        let original = criteria::criteria_of(self.mapper, entry.criteria);
        let useful = self.useful_criteria(name, k, entry);
        if useful == (CriteriaSet { bits: 0 }) {
            Seq::empty()
        } else if !entry.suggest && !original.covers(useful) {
            seq![
                ExemptedDependencyView {
                    version: entry.version,
                    criteria: criteria::names_of(self.mapper, useful.minus(original)),
                    suggest: true,
                    notes: None,
                },
                ExemptedDependencyView {
                    version: entry.version,
                    criteria: criteria::names_of(self.mapper, original),
                    suggest: entry.suggest,
                    notes: entry.notes,
                },
            ]
        } else {
            seq![
                ExemptedDependencyView {
                    version: entry.version,
                    criteria: criteria::names_of(self.mapper, useful),
                    suggest: entry.suggest,
                    notes: entry.notes,
                },
            ]
        }
    }

    /// What becomes of the exemptions of a name.
    pub open spec fn revised_all(self, name: Seq<char>, list: Seq<ExemptedDependencyView>) -> Seq<
        ExemptedDependencyView,
    >
        decreases list.len(),
    {
        if list.len() == 0 {
            Seq::empty()
        } else {
            self.revised_all(name, list.drop_last()) + self.revised(
                name,
                list.len() - 1,
                list.last(),
            )
        }
    }

    /// The exemptions of a name that do not exist yet and are needed.
    pub open spec fn fresh_exemptions(self, name: Seq<char>) -> Seq<ExemptedDependencyView> {
        match self.required.get_spec(name) {
            Some(Some(entries)) => new_exemptions(self.mapper, entries.listing()),
            _ => Seq::empty(),
        }
    }

    /// The exemptions of a name.
    pub open spec fn exemptions(self, name: Seq<char>) -> Seq<ExemptedDependencyView> {
        self.revised_all(name, sorted_map::views_at(self.store.config.exemptions, name))
            + self.fresh_exemptions(name)
    }
}

/// An exemption for each of the entries that is one.
pub open spec fn new_exemptions(
    m: CriteriaMapper,
    list: Seq<(RequiredEntryView, CriteriaSet)>,
) -> Seq<ExemptedDependencyView>
    decreases list.len(),
{
    if list.len() == 0 {
        Seq::empty()
    } else {
        let rest = new_exemptions(m, list.drop_last());
        match list.last().0 {
            RequiredEntryView::FreshExemption { version } => rest.push(
                ExemptedDependencyView {
                    version,
                    criteria: criteria::names_of(m, list.last().1),
                    suggest: true,
                    notes: None,
                },
            ),
            _ => rest,
        }
    }
}

/// Whether unpublished entries are what is left of some entries when they are
/// sorted and doubles are dropped.
pub open spec fn is_listed_once(
    list: Option<Vec<UnpublishedEntry>>,
    wanted: Seq<UnpublishedEntryView>,
) -> bool {
    match list {
        Some(l) => wanted.len() > 0 && exists|s: Seq<UnpublishedEntry>| #[trigger]
            order::is_arrangement(s, wanted) && sorted_map::views(l@) == retain::dedup(
                sorted_map::views(s),
            ),
        None => wanted.len() == 0,
    }
}

/// Whether two maps of criteria say the same.
pub open spec fn same_criteria(
    a: SortedMap<CriteriaEntry>,
    b: SortedMap<CriteriaEntry>,
) -> bool {
    &&& a.keys() == b.keys()
    &&& forall|i: int|
        0 <= i < a.entries().len() ==> (#[trigger] a.entries()[i]).1@ == b.entries()[i].1@
}

impl UpdateModel {
    /// Whether a file holds what is kept of an import.
    pub open spec fn updates_import(self, i: int, file: AuditsFile) -> bool {
        let live = self.store.live().audits.entries()[i].1;
        &&& same_criteria(file.criteria, live.criteria)
        &&& retain::retains(
            file.wildcard_audits,
            live.wildcard_audits,
            |name: Seq<char>| self.wildcard_flags(i, name),
        )
        &&& retain::retains(file.audits, live.audits, |name: Seq<char>| self.audit_flags(i, name))
        &&& file.trusted.entries().len() == 0
    }

    /// Whether updates hold what is kept of everything.
    pub open spec fn updates(self, r: StoreUpdates) -> bool {
        let live = self.store.live();
        &&& r.audits.keys() == self.store.audits.audits.keys()
        &&& forall|name: Seq<char>| #[trigger]
            sorted_map::views_at(r.audits, name) == retain::kept(
                sorted_map::views_at(self.store.audits.audits, name),
                self.local_flags(name),
            )
        &&& r.imports.audits.keys() == live.audits.keys()
        &&& forall|i: int|
            0 <= i < live.audits.entries().len() ==> self.updates_import(
                i,
                (#[trigger] r.imports.audits.entries()[i]).1,
            )
        &&& retain::retains(
            r.imports.publisher,
            live.publisher,
            |name: Seq<char>| self.publisher_flags(name),
        )
        &&& forall|name: Seq<char>|
            is_listed_once(
                #[trigger] r.imports.unpublished.get_spec(name),
                retain::kept_imports::<UnpublishedEntry>(
                    sorted_map::views_at(live.unpublished, name),
                    self.unpublished_flags(name),
                ),
            )
        &&& forall|name: Seq<char>|
            retain::is_listed(#[trigger] r.exemptions.get_spec(name), self.exemptions(name))
    }
}

/// Whether an audit in a list is fresh.
fn audit_is_fresh(list: Option<&Vec<AuditEntry>>, i: usize) -> (r: bool)
    ensures
        r == match list {
            Some(l) => i < l@.len() && l@[i as int].is_fresh_import,
            None => false,
        },
{
    match list {
        Some(l) => i < l.len() && l[i].is_fresh_import,
        None => false,
    }
}

/// Whether a wildcard audit in a list is fresh.
fn wildcard_is_fresh(list: Option<&Vec<WildcardEntry>>, i: usize) -> (r: bool)
    ensures
        r == match list {
            Some(l) => i < l@.len() && l@[i as int].is_fresh_import,
            None => false,
        },
{
    match list {
        Some(l) => i < l.len() && l[i].is_fresh_import,
        None => false,
    }
}

/// Whether an entry was fetched and is not imported yet.
fn is_fresh_entry(store: &Store, name: &str, e: &RequiredEntry) -> (r: bool)
    ensures
        r == is_fresh(*store, name@, e@),
{
    match e {
        RequiredEntry::Audit { import_index, audit_index } => {
            let imports = store.imported_audits();
            *import_index < imports.len() && audit_is_fresh(
                imports.value_at(*import_index).audits.get(name),
                *audit_index,
            )
        },
        RequiredEntry::WildcardAudit { import_index, audit_index } => {
            let imports = store.imported_audits();
            *import_index < imports.len() && wildcard_is_fresh(
                imports.value_at(*import_index).wildcard_audits.get(name),
                *audit_index,
            )
        },
        RequiredEntry::Publisher { publisher_index } => match store.publishers().get(name) {
            Some(l) => *publisher_index < l.len() && l[*publisher_index].is_fresh_import,
            None => false,
        },
        _ => false,
    }
}

/// Whether imports that are not needed are to be dropped.
///
/// They are on request, and also if a new audit or release is imported for the
/// package.
pub fn should_prune_imports(
    store: &Store,
    required_entries: &Option<RequiredEntries>,
    mode: UpdateMode,
    pkgname: &str,
) -> (r: bool)
    ensures
        r == prunes_imports(*store, *required_entries, mode, pkgname@),
{
    if mode.prune_imports {
        return true;
    }
    match required_entries {
        Some(entries) => {
            proof {
                use_type_invariant(entries);
            }
            let mut i: usize = 0;
            while i < entries.len()
                invariant
                    entries.wf(),
                    *required_entries == Some(*entries),
                    i <= entries.listing().len(),
                    forall|x: int|
                        0 <= x < i ==> !is_fresh(
                            *store,
                            pkgname@,
                            (#[trigger] entries.listing()[x]).0,
                        ),
                decreases entries.listing().len() - i,
            {
                let (entry, _) = entries.entry_at(i);
                if is_fresh_entry(store, pkgname, entry) {
                    proof {
                        entries.lemma_listing(i as int);
                        assert(entries.has(entry@) && is_fresh(*store, pkgname@, entry@));
                    }
                    return true;
                }
                i = i + 1;
            }
            proof {
                assert forall|e: RequiredEntryView| entries.has(e) implies !(#[trigger] is_fresh(
                    *store,
                    pkgname@,
                    e,
                )) by {
                    let x = entries.lemma_listed(e);
                    assert(entries.listing()[x].0 == e);
                }
            }
            false
        },
        None => false,
    }
}

impl UpdateModel {
    /// Whether the model is about given values.
    spec fn fits(
        self,
        store: Store,
        required: SortedMap<Option<RequiredEntries>>,
        mode: UpdateModes,
    ) -> bool {
        self.store == store && self.required == required && self.mode == mode
    }
}

/// What is known of the entries for a name.
struct NameState<'a> {
    name: &'a str,
    required: Option<&'a Option<RequiredEntries>>,
    prune: bool,
}

impl<'a> NameState<'a> {
    spec fn fits(self, model: UpdateModel) -> bool {
        match self.required {
            Some(entries) => model.required.get_spec(self.name@) == Some(*entries),
            None => model.required.get_spec(self.name@) is None,
        }
    }

    /// Whether an imported entry is kept.
    fn keeps(&self, is_fresh: bool, e: RequiredEntry, Ghost(model): Ghost<UpdateModel>) -> (r: bool)
        requires
            self.fits(model),
        ensures
            r == model.keeps(self.name@, self.prune, is_fresh, e@),
    {
        if !self.prune && !is_fresh {
            return true;
        }
        match self.required {
            Some(Some(entries)) => entries.contains_key(&e),
            Some(None) => !is_fresh,
            None => false,
        }
    }
}

/// What is known of a name, with the decision whether to drop imports.
fn import_state<'a>(
    store: &Store,
    required: &'a SortedMap<Option<RequiredEntries>>,
    mode: &UpdateModes,
    name: &'a str,
    Ghost(model): Ghost<UpdateModel>,
) -> (r: NameState<'a>)
    requires
        model.fits(*store, *required, *mode),
    ensures
        r.name == name,
        r.fits(model),
        r.prune == model.prunes_imports(name@),
{
    let m = mode.for_package(name);
    let found = required.get(name);
    let prune = match found {
        Some(entries) => should_prune_imports(store, entries, m, name),
        None => should_prune_imports(store, &None, m, name),
    };
    NameState { name, required: found, prune }
}

/// Which wildcard audits of an import are kept.
fn wildcard_flags(
    store: &Store,
    required: &SortedMap<Option<RequiredEntries>>,
    mode: &UpdateModes,
    import_index: usize,
    file: &AuditsFile,
    Ghost(model): Ghost<UpdateModel>,
) -> (r: Vec<Vec<bool>>)
    requires
        model.fits(*store, *required, *mode),
        *file == store.live().audits.entries()[import_index as int].1,
    ensures
        r@.len() == file.wildcard_audits.entries().len(),
        forall|k: int|
            0 <= k < r@.len() ==> (#[trigger] r@[k])@ == model.wildcard_flags(
                import_index as int,
                file.wildcard_audits.entries()[k].0@,
            ) && r@[k]@.len() == file.wildcard_audits.entries()[k].1@.len(),
{
    let map = &file.wildcard_audits;
    proof {
        use_type_invariant(map);
    }
    let mut r: Vec<Vec<bool>> = Vec::new();
    let mut k: usize = 0;
    while k < map.len()
        invariant
            map.wf(),
            *map == file.wildcard_audits,
            model.fits(*store, *required, *mode),
            *file == store.live().audits.entries()[import_index as int].1,
            k <= map.entries().len(),
            r@.len() == k,
            forall|x: int|
                0 <= x < k ==> (#[trigger] r@[x])@ == model.wildcard_flags(
                    import_index as int,
                    map.entries()[x].0@,
                ) && r@[x]@.len() == map.entries()[x].1@.len(),
        decreases map.entries().len() - k,
    {
        let name = map.key_at(k).as_str();
        let list = map.value_at(k);
        let state = import_state(store, required, mode, name, Ghost(model));
        proof {
            map.lemma_get_at(k as int);
        }
        let ghost wanted = model.wildcard_flags(import_index as int, name@);
        let mut row: Vec<bool> = Vec::new();
        let mut j: usize = 0;
        while j < list.len()
            invariant
                state.name == name,
                state.fits(model),
                state.prune == model.prunes_imports(name@),
                wanted == model.wildcard_flags(import_index as int, name@),
                wanted.len() == list@.len(),
                sorted_map::views_at(
                    model.store.live().audits.entries()[import_index as int].1.wildcard_audits,
                    name@,
                ) == sorted_map::views(list@),
                j <= list@.len(),
                row@ == wanted.take(j as int),
            decreases list@.len() - j,
        {
            row.push(
                state.keeps(
                    list[j].is_fresh_import,
                    RequiredEntry::WildcardAudit { import_index, audit_index: j },
                    Ghost(model),
                ),
            );
            assert(sorted_map::views(list@)[j as int] == list@[j as int]@);
            assert(row@ =~= wanted.take(j + 1));
            j = j + 1;
        }
        assert(wanted.take(j as int) =~= wanted);
        r.push(row);
        k = k + 1;
    }
    r
}

/// Which audits of an import are kept.
fn audit_flags(
    store: &Store,
    required: &SortedMap<Option<RequiredEntries>>,
    mode: &UpdateModes,
    import_index: usize,
    file: &AuditsFile,
    Ghost(model): Ghost<UpdateModel>,
) -> (r: Vec<Vec<bool>>)
    requires
        model.fits(*store, *required, *mode),
        *file == store.live().audits.entries()[import_index as int].1,
    ensures
        r@.len() == file.audits.entries().len(),
        forall|k: int|
            0 <= k < r@.len() ==> (#[trigger] r@[k])@ == model.audit_flags(
                import_index as int,
                file.audits.entries()[k].0@,
            ) && r@[k]@.len() == file.audits.entries()[k].1@.len(),
{
    let map = &file.audits;
    proof {
        use_type_invariant(map);
    }
    let mut r: Vec<Vec<bool>> = Vec::new();
    let mut k: usize = 0;
    while k < map.len()
        invariant
            map.wf(),
            *map == file.audits,
            model.fits(*store, *required, *mode),
            *file == store.live().audits.entries()[import_index as int].1,
            k <= map.entries().len(),
            r@.len() == k,
            forall|x: int|
                0 <= x < k ==> (#[trigger] r@[x])@ == model.audit_flags(
                    import_index as int,
                    map.entries()[x].0@,
                ) && r@[x]@.len() == map.entries()[x].1@.len(),
        decreases map.entries().len() - k,
    {
        let name = map.key_at(k).as_str();
        let list = map.value_at(k);
        let state = import_state(store, required, mode, name, Ghost(model));
        proof {
            map.lemma_get_at(k as int);
        }
        let ghost wanted = model.audit_flags(import_index as int, name@);
        let mut row: Vec<bool> = Vec::new();
        let mut j: usize = 0;
        while j < list.len()
            invariant
                state.name == name,
                state.fits(model),
                state.prune == model.prunes_imports(name@),
                wanted == model.audit_flags(import_index as int, name@),
                wanted.len() == list@.len(),
                sorted_map::views_at(
                    model.store.live().audits.entries()[import_index as int].1.audits,
                    name@,
                ) == sorted_map::views(list@),
                j <= list@.len(),
                row@ == wanted.take(j as int),
            decreases list@.len() - j,
        {
            let entry = &list[j];
            let is_violation = match &entry.kind {
                AuditKind::Violation { violation: _ } => true,
                _ => false,
            };
            assert(sorted_map::views(list@)[j as int] == list@[j as int]@);
            let keep = if is_violation && (state.prune || entry.is_fresh_import) {
                state.required.is_some()
            } else {
                state.keeps(
                    entry.is_fresh_import,
                    RequiredEntry::Audit { import_index, audit_index: j },
                    Ghost(model),
                )
            };
            row.push(keep);
            assert(row@ =~= wanted.take(j + 1));
            j = j + 1;
        }
        assert(wanted.take(j as int) =~= wanted);
        r.push(row);
        k = k + 1;
    }
    r
}

/// Which releases are kept.
fn publisher_flags(
    store: &Store,
    required: &SortedMap<Option<RequiredEntries>>,
    mode: &UpdateModes,
    Ghost(model): Ghost<UpdateModel>,
) -> (r: Vec<Vec<bool>>)
    requires
        model.fits(*store, *required, *mode),
    ensures
        r@.len() == store.live().publisher.entries().len(),
        forall|k: int|
            0 <= k < r@.len() ==> (#[trigger] r@[k])@ == model.publisher_flags(
                store.live().publisher.entries()[k].0@,
            ) && r@[k]@.len() == store.live().publisher.entries()[k].1@.len(),
{
    let map = store.publishers();
    proof {
        use_type_invariant(map);
    }
    let mut r: Vec<Vec<bool>> = Vec::new();
    let mut k: usize = 0;
    while k < map.len()
        invariant
            map.wf(),
            *map == store.live().publisher,
            model.fits(*store, *required, *mode),
            k <= map.entries().len(),
            r@.len() == k,
            forall|x: int|
                0 <= x < k ==> (#[trigger] r@[x])@ == model.publisher_flags(map.entries()[x].0@)
                    && r@[x]@.len() == map.entries()[x].1@.len(),
        decreases map.entries().len() - k,
    {
        let name = map.key_at(k).as_str();
        let list = map.value_at(k);
        let state = import_state(store, required, mode, name, Ghost(model));
        proof {
            map.lemma_get_at(k as int);
        }
        let ghost wanted = model.publisher_flags(name@);
        let mut row: Vec<bool> = Vec::new();
        let mut j: usize = 0;
        while j < list.len()
            invariant
                state.name == name,
                state.fits(model),
                state.prune == model.prunes_imports(name@),
                wanted == model.publisher_flags(name@),
                wanted.len() == list@.len(),
                sorted_map::views_at(model.store.live().publisher, name@) == sorted_map::views(
                    list@,
                ),
                j <= list@.len(),
                row@ == wanted.take(j as int),
            decreases list@.len() - j,
        {
            row.push(
                state.keeps(
                    list[j].is_fresh_import,
                    RequiredEntry::Publisher { publisher_index: j },
                    Ghost(model),
                ),
            );
            assert(sorted_map::views(list@)[j as int] == list@[j as int]@);
            assert(row@ =~= wanted.take(j + 1));
            j = j + 1;
        }
        assert(wanted.take(j as int) =~= wanted);
        r.push(row);
        k = k + 1;
    }
    r
}

/// Which unpublished entries are kept.
fn unpublished_flags(
    store: &Store,
    required: &SortedMap<Option<RequiredEntries>>,
    mode: &UpdateModes,
    Ghost(model): Ghost<UpdateModel>,
) -> (r: Vec<Vec<bool>>)
    requires
        model.fits(*store, *required, *mode),
    ensures
        r@.len() == store.live().unpublished.entries().len(),
        forall|k: int|
            0 <= k < r@.len() ==> (#[trigger] r@[k])@ == model.unpublished_flags(
                store.live().unpublished.entries()[k].0@,
            ) && r@[k]@.len() == store.live().unpublished.entries()[k].1@.len(),
{
    let map = store.unpublished();
    proof {
        use_type_invariant(map);
    }
    let mut r: Vec<Vec<bool>> = Vec::new();
    let mut k: usize = 0;
    while k < map.len()
        invariant
            map.wf(),
            *map == store.live().unpublished,
            model.fits(*store, *required, *mode),
            k <= map.entries().len(),
            r@.len() == k,
            forall|x: int|
                0 <= x < k ==> (#[trigger] r@[x])@ == model.unpublished_flags(map.entries()[x].0@)
                    && r@[x]@.len() == map.entries()[x].1@.len(),
        decreases map.entries().len() - k,
    {
        let name = map.key_at(k).as_str();
        let list = map.value_at(k);
        let prune = mode.for_package(name).prune_exemptions;
        let state = NameState { name, required: required.get(name), prune };
        proof {
            map.lemma_get_at(k as int);
        }
        let ghost wanted = model.unpublished_flags(name@);
        let mut row: Vec<bool> = Vec::new();
        let mut j: usize = 0;
        while j < list.len()
            invariant
                state.name == name,
                state.fits(model),
                state.prune == model.mode.at(name@).prune_exemptions,
                wanted == model.unpublished_flags(name@),
                wanted.len() == list@.len(),
                sorted_map::views_at(model.store.live().unpublished, name@) == sorted_map::views(
                    list@,
                ),
                j <= list@.len(),
                row@ == wanted.take(j as int),
            decreases list@.len() - j,
        {
            row.push(
                state.keeps(
                    list[j].is_fresh_import,
                    RequiredEntry::Unpublished { unpublished_index: j },
                    Ghost(model),
                ),
            );
            assert(sorted_map::views(list@)[j as int] == list@[j as int]@);
            assert(row@ =~= wanted.take(j + 1));
            j = j + 1;
        }
        assert(wanted.take(j as int) =~= wanted);
        r.push(row);
        k = k + 1;
    }
    r
}

/// A copy of declared criteria.
fn clone_criteria(map: &SortedMap<CriteriaEntry>) -> (r: SortedMap<CriteriaEntry>)
    ensures
        same_criteria(r, *map),
{
    let mut values: Vec<CriteriaEntry> = Vec::new();
    let mut k: usize = 0;
    while k < map.len()
        invariant
            k <= map.entries().len(),
            values@.len() == k,
            forall|x: int| 0 <= x < k ==> (#[trigger] values@[x])@ == map.entries()[x].1@,
        decreases map.entries().len() - k,
    {
        values.push(map.value_at(k).clone());
        k = k + 1;
    }
    let ghost n = map.entries().len();
    let r = map.with_values(values);
    proof {
        assert(r.keys().len() == map.keys().len());
        assert forall|i: int| 0 <= i < r.entries().len() implies (#[trigger] r.entries()[i]).1@
            == map.entries()[i].1@ by {
            assert(r.entries()[i].1 == values@[i]);
        }
    }
    r
}

/// What is kept of an import.
fn update_import(
    store: &Store,
    required: &SortedMap<Option<RequiredEntries>>,
    mode: &UpdateModes,
    import_index: usize,
    file: &AuditsFile,
    Ghost(model): Ghost<UpdateModel>,
) -> (r: AuditsFile)
    requires
        model.fits(*store, *required, *mode),
        *file == store.live().audits.entries()[import_index as int].1,
    ensures
        model.updates_import(import_index as int, r),
{
    let wildcards = wildcard_flags(store, required, mode, import_index, file, Ghost(model));
    let audits = audit_flags(store, required, mode, import_index, file, Ghost(model));
    AuditsFile {
        criteria: clone_criteria(&file.criteria),
        wildcard_audits: retain_entries(
            &file.wildcard_audits,
            &wildcards,
            Ghost(|name: Seq<char>| model.wildcard_flags(import_index as int, name)),
        ),
        audits: retain_entries(
            &file.audits,
            &audits,
            Ghost(|name: Seq<char>| model.audit_flags(import_index as int, name)),
        ),
        trusted: SortedMap::new(),
    }
}

/// What is kept of all imports.
fn update_imports(
    store: &Store,
    required: &SortedMap<Option<RequiredEntries>>,
    mode: &UpdateModes,
    Ghost(model): Ghost<UpdateModel>,
) -> (r: SortedMap<AuditsFile>)
    requires
        model.fits(*store, *required, *mode),
    ensures
        r.keys() == store.live().audits.keys(),
        forall|i: int|
            0 <= i < store.live().audits.entries().len() ==> model.updates_import(
                i,
                (#[trigger] r.entries()[i]).1,
            ),
{
    let imports = store.imported_audits();
    let mut files: Vec<AuditsFile> = Vec::new();
    let mut i: usize = 0;
    while i < imports.len()
        invariant
            *imports == store.live().audits,
            model.fits(*store, *required, *mode),
            i <= imports.entries().len(),
            files@.len() == i,
            forall|x: int| 0 <= x < i ==> model.updates_import(x, #[trigger] files@[x]),
        decreases imports.entries().len() - i,
    {
        files.push(
            update_import(store, required, mode, i, imports.value_at(i), Ghost(model)),
        );
        i = i + 1;
    }
    let r = imports.with_values(files);
    proof {
        assert forall|i: int| 0 <= i < imports.entries().len() implies model.updates_import(
            i,
            (#[trigger] r.entries()[i]).1,
        ) by {
            assert(r.entries()[i].1 == files@[i]);
        }
    }
    r
}

/// Which unpublished entries are kept, each once.
fn update_unpublished(
    store: &Store,
    required: &SortedMap<Option<RequiredEntries>>,
    mode: &UpdateModes,
    Ghost(model): Ghost<UpdateModel>,
) -> (r: SortedMap<Vec<UnpublishedEntry>>)
    requires
        model.fits(*store, *required, *mode),
    ensures
        forall|name: Seq<char>|
            is_listed_once(
                #[trigger] r.get_spec(name),
                retain::kept_imports::<UnpublishedEntry>(
                    sorted_map::views_at(store.live().unpublished, name),
                    model.unpublished_flags(name),
                ),
            ),
{
    let flags = unpublished_flags(store, required, mode, Ghost(model));
    let kept = retain_entries(
        store.unpublished(),
        &flags,
        Ghost(|name: Seq<char>| model.unpublished_flags(name)),
    );
    proof {
        use_type_invariant(&kept);
    }
    let mut lists: Vec<Vec<UnpublishedEntry>> = Vec::new();
    let mut k: usize = 0;
    while k < kept.len()
        invariant
            k <= kept.entries().len(),
            lists@.len() == k,
            forall|x: int|
                0 <= x < k ==> sorted_map::views((#[trigger] lists@[x])@) == retain::dedup(
                    sorted_map::views(kept.entries()[x].1@),
                ),
        decreases kept.entries().len() - k,
    {
        lists.push(dedup_entries(kept.value_at(k)));
        k = k + 1;
    }
    let ghost all = lists@;
    let r = kept.with_values(lists);
    proof {
        use_type_invariant(&r);
        assert(r.keys().len() == kept.keys().len());
        assert forall|name: Seq<char>|
            is_listed_once(
                #[trigger] r.get_spec(name),
                retain::kept_imports::<UnpublishedEntry>(
                    sorted_map::views_at(store.live().unpublished, name),
                    model.unpublished_flags(name),
                ),
            ) by {
            let wanted = retain::kept_imports::<UnpublishedEntry>(
                sorted_map::views_at(store.live().unpublished, name),
                model.unpublished_flags(name),
            );
            assert(retain::is_listed(kept.get_spec(name), wanted));
            if kept.get_spec(name) is Some {
                let x = kept.lemma_found(name);
                assert(r.keys()[x] == kept.keys()[x]);
                r.lemma_get_at(x);
                assert(r.entries()[x].1 == all[x]);
                assert(order::is_arrangement(kept.entries()[x].1@, wanted));
                assert(sorted_map::views(r.entries()[x].1@) == retain::dedup(
                    sorted_map::views(kept.entries()[x].1@),
                ));
            } else if r.get_spec(name) is Some {
                let x = r.lemma_found(name);
                assert(r.keys()[x] == kept.keys()[x]);
                kept.lemma_get_at(x);
            }
        }
    }
    r
}

/// What is kept of the own audits for a name.
fn keep_local(list: &Vec<AuditEntry>, entries: Option<&RequiredEntries>, Ghost(flags): Ghost<Seq<bool>>) -> (r:
    Vec<AuditEntry>)
    requires
        flags.len() == list@.len(),
        forall|j: int|
            0 <= j < flags.len() ==> #[trigger] flags[j] == match entries {
                Some(entries) => list@[j].importable || entries.has(
                    RequiredEntryView::LocalAudit { audit_index: j as usize },
                ),
                None => true,
            },
    ensures
        sorted_map::views(r@) == retain::kept(sorted_map::views(list@), flags),
{
    let ghost l = sorted_map::views(list@);
    let mut r: Vec<AuditEntry> = Vec::new();
    let mut j: usize = 0;
    assert(sorted_map::views(r@) =~= retain::kept(l.take(0), flags));
    while j < list.len()
        invariant
            flags.len() == list@.len(),
            forall|j: int|
                0 <= j < flags.len() ==> #[trigger] flags[j] == match entries {
                    Some(entries) => list@[j].importable || entries.has(
                        RequiredEntryView::LocalAudit { audit_index: j as usize },
                    ),
                    None => true,
                },
            l == sorted_map::views(list@),
            j <= list@.len(),
            sorted_map::views(r@) == retain::kept(l.take(j as int), flags),
        decreases list@.len() - j,
    {
        let ghost before = r@;
        proof {
            assert(l.take(j + 1).drop_last() =~= l.take(j as int));
            assert(l.take(j + 1).last() == list@[j as int]@);
        }
        let keep = match entries {
            Some(entries) => list[j].importable || entries.contains_key(
                &RequiredEntry::LocalAudit { audit_index: j },
            ),
            None => true,
        };
        assert(keep == flags[j as int]);
        if keep {
            r.push(list[j].clone());
            assert(sorted_map::views(r@) =~= sorted_map::views(before).push(list@[j as int]@));
        }
        j = j + 1;
    }
    assert(l.take(j as int) =~= l);
    r
}

/// What is kept of the own audits.
fn update_audits(
    store: &Store,
    required: &SortedMap<Option<RequiredEntries>>,
    mode: &UpdateModes,
    Ghost(model): Ghost<UpdateModel>,
) -> (r: SortedMap<Vec<AuditEntry>>)
    requires
        model.fits(*store, *required, *mode),
    ensures
        r.keys() == store.audits.audits.keys(),
        forall|name: Seq<char>| #[trigger]
            sorted_map::views_at(r, name) == retain::kept(
                sorted_map::views_at(store.audits.audits, name),
                model.local_flags(name),
            ),
{
    let map = &store.audits.audits;
    proof {
        use_type_invariant(map);
    }
    let mut lists: Vec<Vec<AuditEntry>> = Vec::new();
    let mut k: usize = 0;
    while k < map.len()
        invariant
            map.wf(),
            *map == store.audits.audits,
            model.fits(*store, *required, *mode),
            k <= map.entries().len(),
            lists@.len() == k,
            forall|x: int|
                0 <= x < k ==> sorted_map::views((#[trigger] lists@[x])@) == retain::kept(
                    sorted_map::views(map.entries()[x].1@),
                    model.local_flags(map.entries()[x].0@),
                ),
        decreases map.entries().len() - k,
    {
        let name = map.key_at(k).as_str();
        proof {
            map.lemma_get_at(k as int);
        }
        let prune = mode.for_package(name).prune_non_importable_audits;
        let entries: Option<&RequiredEntries> = match required.get(name) {
            Some(Some(entries)) => if prune {
                Some(entries)
            } else {
                None
            },
            _ => None,
        };
        let list = map.value_at(k);
        let ghost flags = model.local_flags(name@);
        proof {
            assert(sorted_map::views_at(model.store.audits.audits, name@) == sorted_map::views(
                list@,
            ));
            assert forall|j: int| 0 <= j < flags.len() implies #[trigger] flags[j] == match entries {
                Some(entries) => list@[j].importable || entries.has(
                    RequiredEntryView::LocalAudit { audit_index: j as usize },
                ),
                None => true,
            } by {
                assert(sorted_map::views(list@)[j] == list@[j]@);
            }
        }
        lists.push(keep_local(list, entries, Ghost(flags)));
        k = k + 1;
    }
    let ghost all = lists@;
    let r = map.with_values(lists);
    proof {
        use_type_invariant(&r);
        assert(r.keys().len() == map.keys().len());
        assert forall|name: Seq<char>| #[trigger]
            sorted_map::views_at(r, name) == retain::kept(
                sorted_map::views_at(*map, name),
                model.local_flags(name),
            ) by {
            if map.get_spec(name) is Some {
                let x = map.lemma_found(name);
                assert(r.keys()[x] == map.keys()[x]);
                r.lemma_get_at(x);
                assert(r.entries()[x].1 == all[x]);
            } else if r.get_spec(name) is Some {
                let x = r.lemma_found(name);
                assert(r.keys()[x] == map.keys()[x]);
                map.lemma_get_at(x);
            } else {
                assert(sorted_map::views_at(r, name) =~= retain::kept(
                    sorted_map::views_at(*map, name),
                    model.local_flags(name),
                ));
            }
        }
    }
    r
}

/// What becomes of an exemption.
fn revise_exemption(
    m: &CriteriaMapper,
    state: &NameState,
    k: usize,
    entry: &ExemptedDependency,
    out: &mut Vec<ExemptedDependency>,
    Ghost(model): Ghost<UpdateModel>,
)
    requires
        m.wf(),
        model.mapper == *m,
        state.fits(model),
        state.prune == model.mode.at(state.name@).prune_exemptions,
    ensures
        sorted_map::views(final(out)@) == sorted_map::views(old(out)@) + model.revised(
            state.name@,
            k as int,
            entry@,
        ),
{
    let ghost start = sorted_map::views(out@);
    let original = m.criteria_from_list(&entry.criteria);
    let mut useful = match state.required {
        Some(Some(entries)) => match entries.get(
            &RequiredEntry::Exemption { exemption_index: k },
        ) {
            Some(set) => set,
            None => CriteriaSet::none(),
        },
        Some(None) => original,
        None => CriteriaSet::none(),
    };
    proof {
        CriteriaSet::lemma_empty();
        assert(CriteriaSet { bits: 0 } == (CriteriaSet { bits: 0 }));
    }
    let ghost useful0 = useful;
    if !state.prune {
        useful.unioned_with(&original);
        proof {
            CriteriaSet::lemma_union(useful0, original);
            CriteriaSet::lemma_ext(useful, useful0.union(original));
        }
    }
    assert(useful == model.useful_criteria(state.name@, k as int, entry@));
    if useful.is_empty() {
        proof {
            assert forall|i: int| #[trigger] useful.has(i) == (CriteriaSet { bits: 0 }).has(
                i,
            ) by {}
            CriteriaSet::lemma_ext(useful, CriteriaSet { bits: 0 });
            assert(sorted_map::views(out@) =~= start + model.revised(
                state.name@,
                k as int,
                entry@,
            ));
        }
        return;
    }
    if !entry.suggest && !original.contains(&useful) {
        let mut extra = useful;
        extra.clear_criteria(&original);
        proof {
            CriteriaSet::lemma_minus(useful, original);
            CriteriaSet::lemma_ext(extra, useful.minus(original));
        }
        out.push(
            ExemptedDependency {
                version: entry.version.clone(),
                criteria: m.criteria_names(&extra),
                suggest: true,
                notes: None,
            },
        );
        out.push(
            ExemptedDependency {
                version: entry.version.clone(),
                criteria: m.criteria_names(&original),
                suggest: entry.suggest,
                notes: clone_opt_text(&entry.notes),
            },
        );
    } else {
        out.push(
            ExemptedDependency {
                version: entry.version.clone(),
                criteria: m.criteria_names(&useful),
                suggest: entry.suggest,
                notes: clone_opt_text(&entry.notes),
            },
        );
    }
    assert(sorted_map::views(out@) =~= start + model.revised(state.name@, k as int, entry@));
}

/// Adds the exemptions that do not exist yet.
fn push_fresh_exemptions(
    m: &CriteriaMapper,
    state: &NameState,
    out: &mut Vec<ExemptedDependency>,
    Ghost(model): Ghost<UpdateModel>,
)
    requires
        m.wf(),
        model.mapper == *m,
        state.fits(model),
    ensures
        sorted_map::views(final(out)@) == sorted_map::views(old(out)@) + model.fresh_exemptions(
            state.name@,
        ),
{
    let ghost start = sorted_map::views(out@);
    if let Some(Some(entries)) = state.required {
        let ghost list = entries.listing();
        let mut i: usize = 0;
        assert(sorted_map::views(out@) =~= start + new_exemptions(*m, list.take(0)));
        while i < entries.len()
            invariant
                m.wf(),
                list == entries.listing(),
                i <= list.len(),
                sorted_map::views(out@) == start + new_exemptions(*m, list.take(i as int)),
            decreases list.len() - i,
        {
            let (entry, set) = entries.entry_at(i);
            let ghost before = sorted_map::views(out@);
            proof {
                assert(list.take(i + 1).drop_last() =~= list.take(i as int));
                assert(list.take(i + 1).last() == list[i as int]);
            }
            if let RequiredEntry::FreshExemption { version } = entry {
                let exemption = ExemptedDependency {
                    version: version.clone(),
                    criteria: m.criteria_names(&set),
                    suggest: true,
                    notes: None,
                };
                out.push(exemption);
                assert(sorted_map::views(out@) =~= before.push(exemption@));
                assert(sorted_map::views(out@) =~= start + new_exemptions(*m, list.take(i + 1)));
            }
            i = i + 1;
        }
        assert(list.take(i as int) =~= list);
    } else {
        assert(sorted_map::views(out@) =~= start + model.fresh_exemptions(state.name@));
    }
}

/// The exemptions of a name, in order.
fn update_exemptions_of(
    m: &CriteriaMapper,
    state: &NameState,
    list: Option<&Vec<ExemptedDependency>>,
    Ghost(model): Ghost<UpdateModel>,
) -> (r: Vec<ExemptedDependency>)
    requires
        m.wf(),
        model.mapper == *m,
        state.fits(model),
        state.prune == model.mode.at(state.name@).prune_exemptions,
        match list {
            Some(l) => model.store.config.exemptions.get_spec(state.name@) == Some(*l),
            None => model.store.config.exemptions.get_spec(state.name@) is None,
        },
    ensures
        order::is_arrangement(r@, model.exemptions(state.name@)),
        r@.len() == model.exemptions(state.name@).len(),
{
    let mut out: Vec<ExemptedDependency> = Vec::new();
    let ghost old_list = sorted_map::views_at(model.store.config.exemptions, state.name@);
    if let Some(l) = list {
        let mut k: usize = 0;
        assert(sorted_map::views(out@) =~= model.revised_all(state.name@, old_list.take(0)));
        while k < l.len()
            invariant
                m.wf(),
                model.mapper == *m,
                state.fits(model),
                state.prune == model.mode.at(state.name@).prune_exemptions,
                old_list == sorted_map::views(l@),
                k <= l@.len(),
                sorted_map::views(out@) == model.revised_all(state.name@, old_list.take(k as int)),
            decreases l@.len() - k,
        {
            proof {
                assert(old_list.take(k + 1).drop_last() =~= old_list.take(k as int));
                assert(old_list.take(k + 1).last() == l@[k as int]@);
            }
            revise_exemption(m, state, k, &l[k], &mut out, Ghost(model));
            k = k + 1;
        }
        assert(old_list.take(k as int) =~= old_list);
    } else {
        assert(sorted_map::views(out@) =~= model.revised_all(state.name@, old_list));
    }
    push_fresh_exemptions(m, state, &mut out, Ghost(model));
    proof {
        assert(sorted_map::views(out@) == model.exemptions(state.name@));
        assert(out@.map_values(|x: ExemptedDependency| x@) =~= sorted_map::views(out@));
        order::lemma_sort_arranges(out@);
        order::lemma_sort_by_key(out@);
    }
    sort(out)
}

/// The exemptions of all names.
fn update_exemptions(
    store: &Store,
    m: &CriteriaMapper,
    required: &SortedMap<Option<RequiredEntries>>,
    mode: &UpdateModes,
    Ghost(model): Ghost<UpdateModel>,
) -> (r: SortedMap<Vec<ExemptedDependency>>)
    requires
        m.wf(),
        model.mapper == *m,
        model.fits(*store, *required, *mode),
    ensures
        forall|name: Seq<char>|
            retain::is_listed(#[trigger] r.get_spec(name), model.exemptions(name)),
{
    let map = &store.config.exemptions;
    let mut r: SortedMap<Vec<ExemptedDependency>> = SortedMap::new();
    let mut k: usize = 0;
    proof {
        use_type_invariant(map);
        use_type_invariant(required);
    }
    while k < map.len()
        invariant
            m.wf(),
            map.wf(),
            model.mapper == *m,
            *map == store.config.exemptions,
            model.fits(*store, *required, *mode),
            k <= map.entries().len(),
            forall|name: Seq<char>|
                #![trigger r.get_spec(name)]
                if exists|x: int| 0 <= x < k && (#[trigger] map.entries()[x]).0@ == name {
                    retain::is_listed(r.get_spec(name), model.exemptions(name))
                } else {
                    r.get_spec(name) is None
                },
        decreases map.entries().len() - k,
    {
        let name = map.key_at(k).as_str();
        proof {
            map.lemma_get_at(k as int);
        }
        let prune = mode.for_package(name).prune_exemptions;
        let state = NameState { name, required: required.get(name), prune };
        let list = update_exemptions_of(m, &state, Some(map.value_at(k)), Ghost(model));
        let ghost before = r;
        if list.len() > 0 {
            r.insert(map.key_at(k).clone(), list);
        }
        proof {
            assert forall|n: Seq<char>|
                #![trigger r.get_spec(n)]
                if exists|x: int| 0 <= x < k + 1 && (#[trigger] map.entries()[x]).0@ == n {
                    retain::is_listed(r.get_spec(n), model.exemptions(n))
                } else {
                    r.get_spec(n) is None
                } by {
                if n == name@ {
                    assert(map.entries()[k as int].0@ == n);
                    if exists|x: int| 0 <= x < k && (#[trigger] map.entries()[x]).0@ == n {
                        let x = choose|x: int| 0 <= x < k && (#[trigger] map.entries()[x]).0@ == n;
                        map.lemma_distinct(x, k as int);
                    }
                    assert(before.get_spec(n) is None);
                } else {
                    assert(r.get_spec(n) == before.get_spec(n));
                    if exists|x: int| 0 <= x < k + 1 && (#[trigger] map.entries()[x]).0@ == n {
                        let x = choose|x: int|
                            0 <= x < k + 1 && (#[trigger] map.entries()[x]).0@ == n;
                        assert(x < k);
                        assert(map.entries()[x].0@ == n);
                    }
                }
            }
        }
        k = k + 1;
    }
    proof {
        assert forall|name: Seq<char>|
            #![trigger r.get_spec(name)]
            if map.get_spec(name) is Some {
                retain::is_listed(r.get_spec(name), model.exemptions(name))
            } else {
                r.get_spec(name) is None
            } by {
            if map.get_spec(name) is Some {
                let x = map.lemma_found(name);
                assert(map.entries()[x].0@ == name);
            } else if exists|x: int|
                0 <= x < map.entries().len() && (#[trigger] map.entries()[x]).0@ == name {
                let x = choose|x: int|
                    0 <= x < map.entries().len() && (#[trigger] map.entries()[x]).0@ == name;
                map.lemma_get_at(x);
            }
        }
    }
    k = 0;
    while k < required.len()
        invariant
            m.wf(),
            required.wf(),
            model.mapper == *m,
            *map == store.config.exemptions,
            model.fits(*store, *required, *mode),
            k <= required.entries().len(),
            forall|name: Seq<char>|
                #![trigger r.get_spec(name)]
                if map.get_spec(name) is Some || exists|x: int|
                    0 <= x < k && (#[trigger] required.entries()[x]).0@ == name {
                    retain::is_listed(r.get_spec(name), model.exemptions(name))
                } else {
                    r.get_spec(name) is None
                },
        decreases required.entries().len() - k,
    {
        let name = required.key_at(k).as_str();
        let ghost before = r;
        if !map.contains_key(name) {
            let prune = mode.for_package(name).prune_exemptions;
            let state = NameState { name, required: required.get(name), prune };
            let list = update_exemptions_of(m, &state, None, Ghost(model));
            if list.len() > 0 {
                r.insert(required.key_at(k).clone(), list);
            }
        }
        proof {
            assert forall|n: Seq<char>|
                #![trigger r.get_spec(n)]
                if map.get_spec(n) is Some || exists|x: int|
                    0 <= x < k + 1 && (#[trigger] required.entries()[x]).0@ == n {
                    retain::is_listed(r.get_spec(n), model.exemptions(n))
                } else {
                    r.get_spec(n) is None
                } by {
                if map.get_spec(n) is Some {
                    assert(r.get_spec(n) == before.get_spec(n));
                } else if n == name@ {
                    assert(required.entries()[k as int].0@ == n);
                    if exists|x: int| 0 <= x < k && (#[trigger] required.entries()[x]).0@ == n {
                        let x = choose|x: int|
                            0 <= x < k && (#[trigger] required.entries()[x]).0@ == n;
                        required.lemma_distinct(x, k as int);
                    }
                    assert(before.get_spec(n) is None);
                } else {
                    assert(r.get_spec(n) == before.get_spec(n));
                    if exists|x: int| 0 <= x < k + 1 && (#[trigger] required.entries()[x]).0@ == n {
                        let x = choose|x: int|
                            0 <= x < k + 1 && (#[trigger] required.entries()[x]).0@ == n;
                        assert(x < k);
                        assert(required.entries()[x].0@ == n);
                    }
                }
            }
        }
        k = k + 1;
    }
    proof {
        assert forall|name: Seq<char>|
            retain::is_listed(#[trigger] r.get_spec(name), model.exemptions(name)) by {
            if map.get_spec(name) is None && required.get_spec(name) is Some {
                let x = required.lemma_found(name);
                assert(required.entries()[x].0@ == name);
            } else if map.get_spec(name) is None {
                assert(model.exemptions(name).len() == 0);
                if exists|x: int|
                    0 <= x < required.entries().len() && (#[trigger] required.entries()[x]).0@
                        == name {
                    let x = choose|x: int|
                        0 <= x < required.entries().len() && (#[trigger] required.entries()[x]).0@
                            == name;
                    required.lemma_get_at(x);
                }
            }
        }
    }
    r
}

/// What is to change in a store, given which entries are needed.
pub fn compute_updates(
    store: &Store,
    criteria_mapper: &CriteriaMapper,
    required: &SortedMap<Option<RequiredEntries>>,
    mode: &UpdateModes,
) -> (r: StoreUpdates)
    requires
        criteria_mapper.wf(),
    ensures
        (UpdateModel {
            store: *store,
            mapper: *criteria_mapper,
            required: *required,
            mode: *mode,
        }).updates(r),
{
    let ghost model = UpdateModel {
        store: *store,
        mapper: *criteria_mapper,
        required: *required,
        mode: *mode,
    };
    let publishers = publisher_flags(store, required, mode, Ghost(model));
    StoreUpdates {
        audits: update_audits(store, required, mode, Ghost(model)),
        imports: ImportsFile {
            unpublished: update_unpublished(store, required, mode, Ghost(model)),
            publisher: retain_entries(
                store.publishers(),
                &publishers,
                Ghost(|name: Seq<char>| model.publisher_flags(name)),
            ),
            audits: update_imports(store, required, mode, Ghost(model)),
        },
        exemptions: update_exemptions(store, criteria_mapper, required, mode, Ghost(model)),
    }
}

/// Whether the entries of a name are those that its packages need.
pub open spec fn is_required(
    store: Store,
    m: CriteriaMapper,
    packages: Seq<Package>,
    requirements: Seq<CriteriaSet>,
    mode: UpdateModes,
    name: Seq<char>,
    entries: Option<Option<RequiredEntries>>,
) -> bool {
    let d = Demand {
        store,
        mapper: m,
        packages,
        requirements,
        name,
        mode: mode.at(name).search_mode,
    };
    let built = exists|p: int| 0 <= p < packages.len() && (#[trigger] packages[p]).name@ == name;
    match entries {
        Some(Some(entries)) => built && !d.fails() && entries.wf() && exists|
            paths: Map<(int, int), Seq<DeltaEdgeOriginView>>,
        | #[trigger]
            d.is_proof(paths) && entries.collects(paths),
        Some(None) => built && d.fails(),
        None => !built,
    }
}

/// The entries that the packages of each name need.
pub fn required_entries(
    packages: &Vec<Package>,
    criteria_mapper: &CriteriaMapper,
    requirements: &Vec<CriteriaSet>,
    store: &Store,
    mode: &UpdateModes,
) -> (r: SortedMap<Option<RequiredEntries>>)
    requires
        criteria_mapper.wf(),
        requirements@.len() == packages@.len(),
    ensures
        forall|name: Seq<char>|
            is_required(
                *store,
                *criteria_mapper,
                packages@,
                requirements@,
                *mode,
                name,
                #[trigger] r.get_spec(name),
            ),
{
    let mut r: SortedMap<Option<RequiredEntries>> = SortedMap::new();
    let mut p: usize = 0;
    while p < packages.len()
        invariant
            criteria_mapper.wf(),
            requirements@.len() == packages@.len(),
            p <= packages@.len(),
            forall|name: Seq<char>|
                #![trigger r.get_spec(name)]
                if exists|x: int| 0 <= x < p && (#[trigger] packages@[x]).name@ == name {
                    r.get_spec(name) is Some && is_required(
                        *store,
                        *criteria_mapper,
                        packages@,
                        requirements@,
                        *mode,
                        name,
                        r.get_spec(name),
                    )
                } else {
                    r.get_spec(name) is None
                },
        decreases packages@.len() - p,
    {
        let name = packages[p].name.as_str();
        let ghost before = r;
        if !r.contains_key(name) {
            let search_mode = mode.for_package(name).search_mode;
            let entries = resolve_package_required_entries(
                packages,
                criteria_mapper,
                requirements,
                store,
                name,
                search_mode,
            );
            assert(packages@[p as int].name@ == name@);
            if let Some(found) = &entries {
                proof {
                    use_type_invariant(found);
                }
            }
            r.insert(packages[p].name.clone(), entries);
        }
        proof {
            assert forall|n: Seq<char>|
                #![trigger r.get_spec(n)]
                if exists|x: int| 0 <= x < p + 1 && (#[trigger] packages@[x]).name@ == n {
                    r.get_spec(n) is Some && is_required(
                        *store,
                        *criteria_mapper,
                        packages@,
                        requirements@,
                        *mode,
                        n,
                        r.get_spec(n),
                    )
                } else {
                    r.get_spec(n) is None
                } by {
                if n == name@ {
                    assert(packages@[p as int].name@ == n);
                } else {
                    assert(r.get_spec(n) == before.get_spec(n));
                    if exists|x: int| 0 <= x < p + 1 && (#[trigger] packages@[x]).name@ == n {
                        let x = choose|x: int|
                            0 <= x < p + 1 && (#[trigger] packages@[x]).name@ == n;
                        assert(x < p);
                        assert(packages@[x].name@ == n);
                    }
                }
            }
        }
        p = p + 1;
    }
    r
}

/// What an update of the store rests on.
pub struct UpdateBasis {
    pub mapper: CriteriaMapper,
    pub packages: Seq<Package>,
    pub requirements: Seq<CriteriaSet>,
    pub required: SortedMap<Option<RequiredEntries>>,
}

impl UpdateBasis {
    /// Whether the criteria, the packages, what is asked of them and what they
    /// need are right.
    pub open spec fn holds(
        self,
        graph: PackageGraph,
        resolver: CargoResolverVersion,
        store: Store,
        mode: UpdateModes,
    ) -> bool {
        &&& self.mapper.wf()
        &&& criteria::models_criteria(self.mapper, store.audits.criteria)
        &&& package_graph::describes(self.packages, graph)
        &&& self.requirements.len() == self.packages.len()
        &&& forall|p: int|
            0 <= p < self.packages.len() ==> resolve::is_requirement(
                graph,
                resolver,
                store,
                self.mapper,
                self.packages,
                p,
                #[trigger] self.requirements[p],
            )
        &&& forall|name: Seq<char>|
            is_required(
                store,
                self.mapper,
                self.packages,
                self.requirements,
                mode,
                name,
                #[trigger] self.required.get_spec(name),
            )
    }

    /// The model of the update.
    pub open spec fn model(self, store: Store, mode: UpdateModes) -> UpdateModel {
        UpdateModel { store, mapper: self.mapper, required: self.required, mode }
    }
}

/// Whether updates are what an update of a store comes to.
pub open spec fn are_updates(
    graph: PackageGraph,
    resolver: CargoResolverVersion,
    store: Store,
    mode: UpdateModes,
    updates: StoreUpdates,
) -> bool {
    exists|b: UpdateBasis| #[trigger]
        b.holds(graph, resolver, store, mode) && b.model(store, mode).updates(updates)
}

/// What is to change in a store, so that it holds what the dependencies of a
/// workspace need.
pub fn get_store_updates(
    package_graph: &PackageGraph,
    resolver_version: CargoResolverVersion,
    store: &Store,
    mode: &UpdateModes,
) -> (r: StoreUpdates)
    requires
        store.audits.criteria.entries().len() + 2 <= criteria::MAX_CRITERIA,
    ensures
        are_updates(*package_graph, resolver_version, *store, *mode, r),
{
    let criteria_mapper = CriteriaMapper::new(&store.audits.criteria);
    let packages = read_packages(package_graph);
    let requirements = resolve_requirements(
        package_graph,
        &packages,
        &store.config,
        &criteria_mapper,
        resolver_version,
    );
    let required = required_entries(&packages, &criteria_mapper, &requirements, store, mode);
    let ghost b = UpdateBasis {
        mapper: criteria_mapper,
        packages: packages@,
        requirements: requirements@,
        required,
    };
    assert(b.holds(*package_graph, resolver_version, *store, *mode));
    compute_updates(store, &criteria_mapper, &required, mode)
}

/// Brings a store up to date: imports what is needed, and drops what is not
/// needed as far as that is asked for. The store is then the old one with what
/// [`get_store_updates`] returns applied to it.
pub fn update_store(
    package_graph: &PackageGraph,
    resolver_version: CargoResolverVersion,
    store: &mut Store,
    mode: &UpdateModes,
)
    requires
        old(store).audits.criteria.entries().len() + 2 <= criteria::MAX_CRITERIA,
    ensures
        exists|u: StoreUpdates| #[trigger]
            call_ensures(
                get_store_updates,
                (package_graph, resolver_version, &*old(store), mode),
                u,
            ) && are_updates(*package_graph, resolver_version, *old(store), *mode, u)
                && *final(store) == u.applied(*old(store)),
{
    let updates = get_store_updates(package_graph, resolver_version, store, mode);
    updates.apply(store);
}

} // verus!
