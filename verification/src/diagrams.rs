//! Keeping diagrams: one generated detail diagram per environment, plus the user's own.
//!
//! A catalog lists the diagrams of each environment and which model each was drawn
//! from; it is kept rather than the folder scanned, since folder order differs between
//! platforms, and a scan cannot tell which model a diagram shows. A diagram is saved
//! only when the model has not changed since it was drawn: saving a diagram of an old
//! model would pass stale names and addresses off as current. The fingerprint of "the
//! model" covers the environment and the whole logical layer, since a diagram shows
//! both; that is strict, and the other way round a stale diagram would go unnoticed.

use vstd::prelude::*;
use vstd::string::StringSliceAdditionalSpecFns;
use crate::order::text_eq;
use crate::slug::{slug_of, slugify};
use crate::text::{concat2, concat3, owned, push_char};

verus! {

/// The generated deployment diagram: sites, machines, landings and addresses. One shape
/// is exactly one element of the environment, so it is the one diagram reconciled.
pub const DEPLOYMENT: &'static str = "diagram-loom-deployment";

/// The generated context diagram: people and systems only. Its lines are merged (three
/// relationships between two systems are one line), so it is not reconciled.
pub const CONTEXT: &'static str = "diagram-loom-context";

/// The name [`DEPLOYMENT`] had before; only migration still mentions it.
pub const LEGACY_DEPLOYMENT: &'static str = "diagram-loom-details";

/// Where the catalog is kept. A dot file: it is bookkeeping, not a diagram.
pub const CATALOG_PATH: &'static str = "diagrams/.catalog.yaml";

pub open spec fn deployment_name() -> Seq<char> {
    "diagram-loom-deployment"@
}

pub open spec fn context_name() -> Seq<char> {
    "diagram-loom-context"@
}

pub open spec fn legacy_name() -> Seq<char> {
    "diagram-loom-details"@
}

/// Whether the name is one of the diagrams the app generates. A user's diagram may not
/// take one: those are regenerated whole, and would silently overwrite it.
pub fn is_generated(name: &str) -> (r: bool)
    ensures
        r == (name@ == deployment_name() || name@ == context_name()),
{
    text_eq(name, "diagram-loom-deployment") || text_eq(name, "diagram-loom-context")
}

/// Whether a diagram is reconciled against the model or drawn for readers.
///
/// People simplify what they draw for people (one box for a service, not its twelve
/// instances), and folding twelve lines into one hides that one of them is gone. So the
/// two purposes are two kinds, not one diagram doing both.
#[derive(Debug, Clone, Copy, PartialEq, Eq, Structural)]
pub enum DiagramKind {
    /// Each shape is exactly one element of the model. The generated one always is.
    Detail,
    /// For readers, slides and documents; the default for a user's own diagram.
    Simple,
}

impl Default for DiagramKind {
    fn default() -> (r: DiagramKind)
        ensures
            r == DiagramKind::Simple,
    {
        DiagramKind::Simple
    }
}

/// The kind a name always is: generated diagrams by how they are generated (whatever the
/// catalog says), anything else simple.
pub open spec fn kind_of_spec(name: Seq<char>) -> DiagramKind {
    if name == deployment_name() {
        DiagramKind::Detail
    } else {
        DiagramKind::Simple
    }
}

pub fn kind_of(name: &str) -> (r: DiagramKind)
    ensures
        r == kind_of_spec(name@),
{
    if text_eq(name, "diagram-loom-deployment") {
        DiagramKind::Detail
    } else {
        DiagramKind::Simple
    }
}

/// A diagram's record in the catalog.
#[derive(Debug, Clone, PartialEq, Eq)]
pub struct Entry {
    pub name: String,
    /// The model's fingerprint when last saved.
    pub model: String,
    pub kind: DiagramKind,
}

pub struct EntryView {
    pub name: Seq<char>,
    pub model: Seq<char>,
    pub kind: DiagramKind,
}

impl View for Entry {
    type V = EntryView;

    open spec fn view(&self) -> EntryView {
        EntryView { name: self.name@, model: self.model@, kind: self.kind }
    }
}

impl Entry {
    pub fn copy(&self) -> (r: Entry)
        ensures
            r@ == self@,
    {
        Entry { name: self.name.clone(), model: self.model.clone(), kind: self.kind }
    }
}

pub open spec fn entries_view(s: Seq<Entry>) -> Seq<EntryView> {
    s.map_values(|e: Entry| e@)
}

/// The diagrams of each environment, by environment name (as the folders are), the
/// environments in name order.
#[derive(Debug, Clone, PartialEq, Eq)]
pub struct Catalog {
    pub environments: Vec<(String, Vec<Entry>)>,
}

pub open spec fn catalog_view(s: Seq<(String, Vec<Entry>)>) -> Seq<(Seq<char>, Seq<EntryView>)> {
    s.map_values(|p: (String, Vec<Entry>)| (p.0@, entries_view(p.1@)))
}

impl View for Catalog {
    type V = Seq<(Seq<char>, Seq<EntryView>)>;

    open spec fn view(&self) -> Seq<(Seq<char>, Seq<EntryView>)> {
        catalog_view(self.environments@)
    }
}

pub open spec fn env_names(c: Seq<(Seq<char>, Seq<EntryView>)>) -> Seq<Seq<char>> {
    c.map_values(|p: (Seq<char>, Seq<EntryView>)| p.0)
}

/// The diagrams of one environment; none when it has no place in the catalog.
pub open spec fn entries_of(c: Seq<(Seq<char>, Seq<EntryView>)>, env: Seq<char>) -> Seq<EntryView> {
    match crate::logical::first_index(env_names(c), env) {
        Some(k) => c[k].1,
        None => seq![],
    }
}

pub open spec fn entry_names(s: Seq<EntryView>) -> Seq<Seq<char>> {
    s.map_values(|e: EntryView| e.name)
}

/// The entries after saving `name` with `model`: an existing entry only gets the new
/// fingerprint (its kind is the user's choice and stays); a new one gets its name's kind.
pub open spec fn remember_in(s: Seq<EntryView>, name: Seq<char>, model: Seq<char>) -> Seq<EntryView> {
    match crate::logical::first_index(entry_names(s), name) {
        Some(k) => s.update(k, EntryView { name: s[k].name, model, kind: s[k].kind }),
        None => s.push(EntryView { name, model, kind: kind_of_spec(name) }),
    }
}

/// The catalog with `entries` as the diagrams of `env`: its place kept, or a new place
/// in name order.
pub open spec fn with_env(c: Seq<(Seq<char>, Seq<EntryView>)>, env: Seq<char>, entries: Seq<EntryView>) -> Seq<(Seq<char>, Seq<EntryView>)>
    decreases c.len(),
{
    if c.len() == 0 {
        seq![(env, entries)]
    } else if c.last().0 == env {
        c.drop_last().push((env, entries))
    } else if crate::order::seq_lt(env, c.last().0) {
        with_env(c.drop_last(), env, entries).push(c.last())
    } else {
        c.push((env, entries))
    }
}

impl Catalog {
    pub fn new() -> (r: Catalog)
        ensures
            r@ == Seq::<(Seq<char>, Seq<EntryView>)>::empty(),
    {
        Catalog { environments: Vec::new() }
    }

    fn position(&self, env: &str) -> (r: Option<usize>)
        ensures
            match crate::logical::first_index(env_names(self@), env@) {
                Some(k) => r matches Some(x) && x as int == k,
                None => r is None,
            },
    {
        let ghost names = env_names(self@);
        proof {
            crate::logical::lemma_first_index(names, env@);
        }
        let mut i: usize = 0;
        while i < self.environments.len()
            invariant
                i <= self.environments@.len(),
                names == env_names(self@),
                forall|j: int| 0 <= j < i ==> names[j] != env@,
            decreases self.environments.len() - i,
        {
            assert(names[i as int] == self.environments@[i as int].0@);
            if text_eq(self.environments[i].0.as_str(), env) {
                proof {
                    crate::logical::lemma_first_index_unique(names, env@, i as int);
                }
                return Some(i);
            }
            i += 1;
        }
        None
    }

    /// The diagrams of one environment.
    pub fn of(&self, env: &str) -> (r: Vec<Entry>)
        ensures
            entries_view(r@) == entries_of(self@, env@),
    {
        proof {
            crate::logical::lemma_first_index(env_names(self@), env@);
        }
        match self.position(env) {
            Some(k) => {
                let src = &self.environments[k].1;
                let mut out: Vec<Entry> = Vec::new();
                let mut i: usize = 0;
                while i < src.len()
                    invariant
                        i <= src@.len(),
                        entries_view(out@) == entries_view(src@).take(i as int),
                    decreases src.len() - i,
                {
                    let ghost before = entries_view(out@);
                    out.push(src[i].copy());
                    assert(entries_view(out@) =~= before.push(entries_view(src@)[i as int]));
                    assert(entries_view(src@).take(i + 1) =~= entries_view(src@).take(i as int).push(entries_view(src@)[i as int]));
                    i += 1;
                }
                assert(entries_view(src@).take(i as int) =~= entries_view(src@));
                assert(self@[k as int].1 == entries_view(src@));
                out
            },
            None => Vec::new(),
        }
    }

    /// Records that the diagram was saved with this model.
    pub fn remember(&mut self, env: &str, name: &str, model: &str)
        ensures
            final(self)@ == with_env(old(self)@, env@, remember_in(entries_of(old(self)@, env@), name@, model@)),
            catalog_sorted(old(self)@) ==> catalog_sorted(final(self)@),
            catalog_sorted(old(self)@) ==> entries_of(final(self)@, env@) == remember_in(entries_of(old(self)@, env@), name@,
                model@),
    {
        let mut entries = self.of(env);
        let ghost s0 = entries_view(entries@);
        let ghost names = entry_names(s0);
        proof {
            crate::logical::lemma_first_index(names, name@);
        }
        let mut k: usize = 0;
        let mut found = false;
        while k < entries.len()
            invariant_except_break
                !found,
            invariant
                k <= entries@.len(),
                entries_view(entries@) == s0,
                names == entry_names(s0),
                forall|j: int| 0 <= j < k ==> names[j] != name@,
            ensures
                found ==> k < entries@.len() && names[k as int] == name@,
                !found ==> k == entries@.len(),
            decreases entries.len() - k,
        {
            assert(names[k as int] == entries@[k as int].name@);
            if text_eq(entries[k].name.as_str(), name) {
                found = true;
                break;
            }
            k += 1;
        }
        if found {
            proof {
                crate::logical::lemma_first_index_unique(names, name@, k as int);
            }
            let mut e = entries[k].copy();
            e.model = owned(model);
            entries.set(k, e);
            assert(entries_view(entries@) =~= remember_in(s0, name@, model@));
        } else {
            entries.push(Entry { name: owned(name), model: owned(model), kind: kind_of(name) });
            assert(entries_view(entries@) =~= remember_in(s0, name@, model@));
        }
        let ghost before = self@;
        self.put(env, entries);
        proof {
            if catalog_sorted(before) {
                lemma_with_env(before, env@, remember_in(s0, name@, model@));
                reveal(with_env_facts);
            }
        }
    }

    /// Sets the diagrams of one environment, keeping the environments in name order.
    fn put(&mut self, env: &str, entries: Vec<Entry>)
        ensures
            final(self)@ == with_env(old(self)@, env@, entries_view(entries@)),
    {
        let ghost s0 = self@;
        let ghost ev = entries_view(entries@);
        let mut i: usize = self.environments.len();
        assert(s0.take(i as int) =~= s0);
        assert(s0.skip(i as int) =~= Seq::<(Seq<char>, Seq<EntryView>)>::empty());
        loop
            invariant
                i <= self.environments@.len(),
                self@ == s0,
                old(self)@ == s0,
                entries_view(entries@) == ev,
                with_env(s0, env@, ev) == with_env(s0.take(i as int), env@, ev) + s0.skip(i as int),
            ensures
                i <= self.environments@.len(),
                self@ == s0,
                entries_view(entries@) == ev,
                with_env(s0, env@, ev) == with_env(s0.take(i as int), env@, ev) + s0.skip(i as int),
                i > 0 ==> s0[i - 1].0 != env@ && !crate::order::seq_lt(env@, s0[i - 1].0),
            decreases i,
        {
            if i == 0 {
                break;
            }
            let same = text_eq(self.environments[i - 1].0.as_str(), env);
            let less = crate::order::text_lt(env, self.environments[i - 1].0.as_str());
            proof {
                let t = s0.take(i as int);
                assert(t.last() == s0[i - 1]);
                assert(s0[i - 1].0 == self.environments@[i - 1].0@);
                assert(t.drop_last() =~= s0.take(i - 1));
            }
            if same {
                let name = owned(env);
                self.environments.set(i - 1, (name, entries));
                proof {
                    let t = s0.take(i as int);
                    assert(with_env(t, env@, ev) == s0.take(i - 1).push((env@, ev)));
                    assert(self@ =~= s0.take(i - 1).push((env@, ev)) + s0.skip(i as int));
                }
                return;
            }
            if !less {
                break;
            }
            proof {
                let t = s0.take(i as int);
                assert(s0.skip(i - 1) =~= seq![s0[i - 1]] + s0.skip(i as int));
                assert(with_env(t, env@, ev) == with_env(s0.take(i - 1), env@, ev).push(s0[i - 1]));
                assert(with_env(s0.take(i - 1), env@, ev).push(s0[i - 1]) + s0.skip(i as int)
                    =~= with_env(s0.take(i - 1), env@, ev) + s0.skip(i - 1));
            }
            i -= 1;
        }
        self.environments.insert(i, (owned(env), entries));
        proof {
            let t = s0.take(i as int);
            if i > 0 {
                assert(t.last() == s0[i - 1]);
                assert(with_env(t, env@, ev) == t.push((env@, ev)));
            } else {
                assert(with_env(t, env@, ev) == seq![(env@, ev)]);
            }
            assert(self@ =~= t.push((env@, ev)) + s0.skip(i as int));
        }
    }
}

/// A diagram as the screen lists it.
#[derive(Debug, Clone, PartialEq, Eq)]
pub struct DiagramInfo {
    pub name: String,
    /// One the app generates: the screen marks it, it is regenerated whole.
    pub generated: bool,
    /// The model changed after it was saved: it shows an old model.
    pub stale: bool,
    /// Detail or simple. The screen must say so: a simple diagram is not reconciled,
    /// and "nothing said" would read as "checked".
    pub kind: DiagramKind,
}

pub struct DiagramInfoView {
    pub name: Seq<char>,
    pub generated: bool,
    pub stale: bool,
    pub kind: DiagramKind,
}

impl View for DiagramInfo {
    type V = DiagramInfoView;

    open spec fn view(&self) -> DiagramInfoView {
        DiagramInfoView { name: self.name@, generated: self.generated, stale: self.stale, kind: self.kind }
    }
}

pub open spec fn infos_view(s: Seq<DiagramInfo>) -> Seq<DiagramInfoView> {
    s.map_values(|d: DiagramInfo| d@)
}

pub open spec fn generated_name(n: Seq<char>) -> bool {
    n == deployment_name() || n == context_name()
}

/// How a catalog entry is listed against the current model's fingerprint; a generated
/// diagram's kind comes from its name, not from what the catalog holds.
pub open spec fn info_of(e: EntryView, now: Seq<char>) -> DiagramInfoView {
    DiagramInfoView {
        name: e.name,
        generated: generated_name(e.name),
        stale: e.model != now,
        kind: if generated_name(e.name) { kind_of_spec(e.name) } else { e.kind },
    }
}

/// The diagrams of an environment as the screen lists them.
pub fn list_of(catalog: &Catalog, env: &str, now: &str) -> (r: Vec<DiagramInfo>)
    ensures
        infos_view(r@) == entries_of(catalog@, env@).map_values(|e: EntryView| info_of(e, now@)),
{
    let entries = catalog.of(env);
    let ghost src = entries_view(entries@);
    let mut out: Vec<DiagramInfo> = Vec::new();
    let mut i: usize = 0;
    while i < entries.len()
        invariant
            i <= entries@.len(),
            src == entries_view(entries@),
            infos_view(out@) == src.take(i as int).map_values(|e: EntryView| info_of(e, now@)),
        decreases entries.len() - i,
    {
        let e = &entries[i];
        let generated = is_generated(e.name.as_str());
        let kind = if generated { kind_of(e.name.as_str()) } else { e.kind };
        let ghost before = infos_view(out@);
        out.push(DiagramInfo { name: e.name.clone(), generated, stale: !text_eq(e.model.as_str(), now), kind });
        proof {
            assert(src[i as int] == e@);
            assert(infos_view(out@) =~= before.push(info_of(src[i as int], now@)));
            assert(src.take(i + 1).map_values(|e: EntryView| info_of(e, now@)) =~= src.take(i as int).map_values(
                |e: EntryView| info_of(e, now@)).push(info_of(src[i as int], now@)));
        }
        i += 1;
    }
    assert(src.take(i as int) =~= src);
    out
}

/// A diagram read back, with the model it was drawn from.
#[derive(Debug, Clone, PartialEq, Eq)]
pub struct Loaded {
    pub xml: String,
    /// The model it shows; saving compares it with the current one.
    pub model: String,
}

#[derive(Debug, Clone, PartialEq, Eq)]
pub enum DiagramError {
    Store(String),
    Yaml(String),
    /// The name is empty once normalised.
    EmptyName,
    /// A name the app keeps for itself.
    Reserved,
    /// The environment already has a diagram of this name.
    Duplicate(String),
    NotFound(String),
    /// The model changed since the diagram was drawn, so it was not saved.
    ModelChanged,
}

pub enum DiagramErrorView {
    Store(Seq<char>),
    Yaml(Seq<char>),
    EmptyName,
    Reserved,
    Duplicate(Seq<char>),
    NotFound(Seq<char>),
    ModelChanged,
}

impl View for DiagramError {
    type V = DiagramErrorView;

    open spec fn view(&self) -> DiagramErrorView {
        match self {
            DiagramError::Store(e) => DiagramErrorView::Store(e@),
            DiagramError::Yaml(e) => DiagramErrorView::Yaml(e@),
            DiagramError::EmptyName => DiagramErrorView::EmptyName,
            DiagramError::Reserved => DiagramErrorView::Reserved,
            DiagramError::Duplicate(n) => DiagramErrorView::Duplicate(n@),
            DiagramError::NotFound(n) => DiagramErrorView::NotFound(n@),
            DiagramError::ModelChanged => DiagramErrorView::ModelChanged,
        }
    }
}

/// Where a diagram is kept. Names have been through [`slugify`], so they cannot leave the
/// folder: a slug holds no `/` or `..`.
pub fn path_of(env: &str, name: &str) -> (r: String)
    ensures
        r@ == "diagrams/"@ + env@ + "/"@ + name@ + ".drawio"@,
{
    let mut out = concat3("diagrams/", env, "/");
    out.append(name);
    out.append(".drawio");
    out
}

/// The entry of a diagram, if the catalog lists it.
pub fn entry_of(catalog: &Catalog, env: &str, name: &str) -> (r: Result<Entry, DiagramError>)
    ensures
        match crate::logical::first_index(entry_names(entries_of(catalog@, env@)), name@) {
            Some(k) => r matches Ok(e) && e@ == entries_of(catalog@, env@)[k],
            None => r matches Err(e) && e@ == DiagramErrorView::NotFound(name@),
        },
{
    let entries = catalog.of(env);
    let ghost names = entry_names(entries_view(entries@));
    proof {
        crate::logical::lemma_first_index(names, name@);
    }
    let mut i: usize = 0;
    while i < entries.len()
        invariant
            i <= entries@.len(),
            names == entry_names(entries_view(entries@)),
            entries_view(entries@) == entries_of(catalog@, env@),
            forall|j: int| 0 <= j < i ==> names[j] != name@,
        decreases entries.len() - i,
    {
        assert(names[i as int] == entries@[i as int].name@);
        if text_eq(entries[i].name.as_str(), name) {
            proof {
                crate::logical::lemma_first_index_unique(names, name@, i as int);
                assert(entries_view(entries@)[i as int] == entries@[i as int]@);
            }
            return Ok(entries[i].copy());
        }
        i += 1;
    }
    Err(DiagramError::NotFound(owned(name)))
}

/// Why a name cannot be a new diagram of the user's, if it cannot.
pub open spec fn new_name_error(catalog: Seq<(Seq<char>, Seq<EntryView>)>, env: Seq<char>, raw: Seq<char>) -> Option<DiagramErrorView> {
    let name = slug_of(raw);
    if name.len() == 0 {
        Some(DiagramErrorView::EmptyName)
    } else if generated_name(name) || name == legacy_name() {
        Some(DiagramErrorView::Reserved)
    } else if entry_names(entries_of(catalog, env)).contains(name) {
        Some(DiagramErrorView::Duplicate(name))
    } else {
        None
    }
}

/// Adds a diagram of the user's to the catalog: the name is normalised first; empty,
/// reserved (the old generated name too: migration would rename it) or taken names are
/// refused. Returns how it is listed.
pub fn create_in(catalog: &mut Catalog, env: &str, raw_name: &str, model: &str) -> (r: Result<DiagramInfo, DiagramError>)
    ensures
        match new_name_error(old(catalog)@, env@, raw_name@) {
            Some(e) => r matches Err(x) && x@ == e && final(catalog)@ == old(catalog)@,
            None => r matches Ok(info) && info@ == (DiagramInfoView {
                name: slug_of(raw_name@),
                generated: false,
                stale: false,
                kind: kind_of_spec(slug_of(raw_name@)),
            }) && final(catalog)@ == with_env(old(catalog)@, env@, remember_in(entries_of(old(catalog)@, env@),
                slug_of(raw_name@), model@)),
        },
{
    let name = slugify(raw_name);
    if name.as_str().is_empty() {
        return Err(DiagramError::EmptyName);
    }
    if is_generated(name.as_str()) || text_eq(name.as_str(), "diagram-loom-details") {
        return Err(DiagramError::Reserved);
    }
    let entries = catalog.of(env);
    let ghost names = entry_names(entries_view(entries@));
    let mut i: usize = 0;
    while i < entries.len()
        invariant
            i <= entries@.len(),
            names == entry_names(entries_view(entries@)),
            entries_view(entries@) == entries_of(catalog@, env@),
            catalog@ == old(catalog)@,
            name@ == slug_of(raw_name@),
            name@.len() > 0,
            !generated_name(name@),
            name@ != legacy_name(),
            forall|j: int| 0 <= j < i ==> names[j] != name@,
        decreases entries.len() - i,
    {
        assert(names[i as int] == entries@[i as int].name@);
        if text_eq(entries[i].name.as_str(), name.as_str()) {
            assert(names.contains(name@));
            return Err(DiagramError::Duplicate(name));
        }
        i += 1;
    }
    catalog.remember(env, name.as_str(), model);
    let kind = kind_of(name.as_str());
    Ok(DiagramInfo { name, generated: false, stale: false, kind })
}

/// A save is refused when the model it was drawn from is not the current one.
pub fn check_unchanged(drawn_from: &str, now: &str) -> (r: Result<(), DiagramError>)
    ensures
        if drawn_from@ == now@ { r is Ok } else { r matches Err(e) && e@ == DiagramErrorView::ModelChanged },
{
    if text_eq(drawn_from, now) {
        Ok(())
    } else {
        Err(DiagramError::ModelChanged)
    }
}

/// Sets whether a diagram is detailed or simple. A generated diagram's kind comes with it
/// and cannot be changed.
pub fn set_kind_in(catalog: &mut Catalog, env: &str, name: &str, kind: DiagramKind) -> (r: Result<(), DiagramError>)
    ensures
        generated_name(name@) ==> (r matches Err(e) && e@ == DiagramErrorView::Reserved && final(catalog)@ == old(catalog)@),
        !generated_name(name@) ==> match crate::logical::first_index(entry_names(entries_of(old(catalog)@, env@)), name@) {
            Some(k) => r is Ok && final(catalog)@ == with_env(old(catalog)@, env@, entries_of(old(catalog)@, env@).update(k,
                EntryView { name: name@, model: entries_of(old(catalog)@, env@)[k].model, kind })),
            None => r matches Err(e) && e@ == DiagramErrorView::NotFound(name@) && final(catalog)@ == old(catalog)@,
        },
{
    if is_generated(name) {
        return Err(DiagramError::Reserved);
    }
    let mut entries = catalog.of(env);
    let ghost s0 = entries_view(entries@);
    let ghost names = entry_names(s0);
    proof {
        crate::logical::lemma_first_index(names, name@);
    }
    let mut i: usize = 0;
    while i < entries.len()
        invariant
            i <= entries@.len(),
            entries_view(entries@) == s0,
            s0 == entries_of(old(catalog)@, env@),
            catalog@ == old(catalog)@,
            !generated_name(name@),
            names == entry_names(s0),
            forall|j: int| 0 <= j < i ==> names[j] != name@,
        decreases entries.len() - i,
    {
        assert(names[i as int] == entries@[i as int].name@);
        if text_eq(entries[i].name.as_str(), name) {
            proof {
                crate::logical::lemma_first_index_unique(names, name@, i as int);
            }
            let mut e = entries[i].copy();
            e.kind = kind;
            entries.set(i, e);
            assert(entries_view(entries@) =~= s0.update(i as int, EntryView { name: name@, model: s0[i as int].model, kind }));
            catalog.put(env, entries);
            return Ok(());
        }
        i += 1;
    }
    Err(DiagramError::NotFound(owned(name)))
}

/// The environments whose old deployment diagram is to be carried over to the new name:
/// those listing the old name and not the new one (a diagram under the new name is one
/// the user already knows; it is never overwritten).
pub open spec fn to_migrate(c: Seq<(Seq<char>, Seq<EntryView>)>) -> Seq<Seq<char>> {
    c.filter(|p: (Seq<char>, Seq<EntryView>)| !entry_names(p.1).contains(deployment_name())
        && entry_names(p.1).contains(legacy_name())).map_values(|p: (Seq<char>, Seq<EntryView>)| p.0)
}

fn names_contain(entries: &Vec<Entry>, name: &str) -> (r: bool)
    ensures
        r == entry_names(entries_view(entries@)).contains(name@),
{
    let ghost names = entry_names(entries_view(entries@));
    let mut i: usize = 0;
    while i < entries.len()
        invariant
            i <= entries@.len(),
            names == entry_names(entries_view(entries@)),
            forall|j: int| 0 <= j < i ==> names[j] != name@,
        decreases entries.len() - i,
    {
        assert(names[i as int] == entries@[i as int].name@);
        if text_eq(entries[i].name.as_str(), name) {
            return true;
        }
        i += 1;
    }
    false
}

/// The environments whose old-named deployment diagram is to be renamed.
pub fn migration_targets(catalog: &Catalog) -> (r: Vec<String>)
    ensures
        crate::inventory::texts_view(r@) == to_migrate(catalog@),
{
    let ghost c = catalog@;
    let ghost pred = |p: (Seq<char>, Seq<EntryView>)| !entry_names(p.1).contains(deployment_name())
        && entry_names(p.1).contains(legacy_name());
    let ghost name_of = |p: (Seq<char>, Seq<EntryView>)| p.0;
    let mut out: Vec<String> = Vec::new();
    let mut i: usize = 0;
    while i < catalog.environments.len()
        invariant
            i <= catalog.environments@.len(),
            c == catalog@,
            pred == (|p: (Seq<char>, Seq<EntryView>)| !entry_names(p.1).contains(deployment_name())
                && entry_names(p.1).contains(legacy_name())),
            name_of == (|p: (Seq<char>, Seq<EntryView>)| p.0),
            crate::inventory::texts_view(out@) == c.take(i as int).filter(pred).map_values(name_of),
        decreases catalog.environments.len() - i,
    {
        let entries = &catalog.environments[i].1;
        proof {
            assert(c.take(i + 1).drop_last() =~= c.take(i as int));
            assert(c[i as int] == (catalog.environments@[i as int].0@, entries_view(entries@)));
            reveal(Seq::filter);
        }
        let ghost before = crate::inventory::texts_view(out@);
        if !names_contain(entries, "diagram-loom-deployment") && names_contain(entries, "diagram-loom-details") {
            out.push(catalog.environments[i].0.clone());
            assert(crate::inventory::texts_view(out@) =~= before.push(c[i as int].0));
            assert(c.take(i + 1).filter(pred) =~= c.take(i as int).filter(pred).push(c[i as int]));
            assert(c.take(i + 1).filter(pred).map_values(name_of) =~= c.take(i as int).filter(pred).map_values(name_of).push(
                c[i as int].0));
        } else {
            assert(c.take(i + 1).filter(pred) =~= c.take(i as int).filter(pred));
        }
        i += 1;
    }
    assert(c.take(i as int) =~= c);
    out
}

/// Renames the old deployment diagram of an environment to the new name in the catalog.
pub fn rename_legacy(catalog: &mut Catalog, env: &str)
    ensures
        match crate::logical::first_index(entry_names(entries_of(old(catalog)@, env@)), legacy_name()) {
            Some(k) => final(catalog)@ == with_env(old(catalog)@, env@, entries_of(old(catalog)@, env@).update(k, EntryView {
                name: deployment_name(),
                model: entries_of(old(catalog)@, env@)[k].model,
                kind: entries_of(old(catalog)@, env@)[k].kind,
            })),
            None => final(catalog)@ == old(catalog)@,
        },
{
    let mut entries = catalog.of(env);
    let ghost s0 = entries_view(entries@);
    let ghost names = entry_names(s0);
    proof {
        reveal_strlit("diagram-loom-details");
        crate::logical::lemma_first_index(names, legacy_name());
    }
    let mut i: usize = 0;
    while i < entries.len()
        invariant
            i <= entries@.len(),
            entries_view(entries@) == s0,
            s0 == entries_of(old(catalog)@, env@),
            catalog@ == old(catalog)@,
            names == entry_names(s0),
            forall|j: int| 0 <= j < i ==> names[j] != legacy_name(),
        decreases entries.len() - i,
    {
        assert(names[i as int] == entries@[i as int].name@);
        if text_eq(entries[i].name.as_str(), "diagram-loom-details") {
            proof {
                crate::logical::lemma_first_index_unique(names, legacy_name(), i as int);
            }
            let mut e = entries[i].copy();
            e.name = owned("diagram-loom-deployment");
            entries.set(i, e);
            assert(entries_view(entries@) =~= s0.update(i as int, EntryView { name: deployment_name(), model: s0[i as int].model,
                kind: s0[i as int].kind }));
            catalog.put(env, entries);
            return;
        }
        i += 1;
    }
}

/// The environment at place `i` comes before the one at place `j` by name.
pub open spec fn name_lt(c: Seq<(Seq<char>, Seq<EntryView>)>, i: int, j: int) -> bool {
    crate::order::seq_lt(c[i].0, c[j].0)
}

/// Each environment has one place in the catalog, the places in name order.
pub open spec fn catalog_sorted(c: Seq<(Seq<char>, Seq<EntryView>)>) -> bool {
    forall|i: int, j: int| 0 <= i < j < c.len() ==> #[trigger] name_lt(c, i, j)
}

/// The catalog after [`rename_legacy`] on `env`.
pub open spec fn renamed(c: Seq<(Seq<char>, Seq<EntryView>)>, env: Seq<char>) -> Seq<(Seq<char>, Seq<EntryView>)> {
    match crate::logical::first_index(entry_names(entries_of(c, env)), legacy_name()) {
        Some(k) => with_env(c, env, entries_of(c, env).update(k, EntryView {
            name: deployment_name(),
            model: entries_of(c, env)[k].model,
            kind: entries_of(c, env)[k].kind,
        })),
        None => c,
    }
}

proof fn lemma_entries_at(c: Seq<(Seq<char>, Seq<EntryView>)>, x: Seq<char>, k: int)
    requires
        catalog_sorted(c),
        0 <= k < c.len(),
        c[k].0 == x,
    ensures
        entries_of(c, x) == c[k].1,
{
    let names = env_names(c);
    assert forall|j: int| 0 <= j < k implies names[j] != x by {
        assert(name_lt(c, j, k));
        crate::order::lemma_lt_irreflexive(x);
    }
    crate::logical::lemma_first_index_unique(names, x, k);
}

proof fn lemma_entries_absent(c: Seq<(Seq<char>, Seq<EntryView>)>, x: Seq<char>)
    requires
        forall|i: int| 0 <= i < c.len() ==> c[i].0 != x,
    ensures
        entries_of(c, x) == Seq::<EntryView>::empty(),
{
    let names = env_names(c);
    crate::logical::lemma_first_index(names, x);
    if let Some(k) = crate::logical::first_index(names, x) {
        assert(names[k] == c[k].0);
    }
}

/// Environment names of `r` all come from `c` or are `env`; all of `c`'s are in `r`.
spec fn names_from(c: Seq<(Seq<char>, Seq<EntryView>)>, env: Seq<char>, r: Seq<(Seq<char>, Seq<EntryView>)>) -> bool {
    &&& forall|i: int| 0 <= i < r.len() ==> #[trigger] r[i].0 == env || exists|j: int| 0 <= j < c.len() && c[j].0 == r[i].0
    &&& forall|j: int| 0 <= j < c.len() ==> exists|i: int| 0 <= i < r.len() && r[i].0 == #[trigger] c[j].0
}

/// Entries of every environment but `env` are the same in `r` as in `c`.
spec fn others_kept(c: Seq<(Seq<char>, Seq<EntryView>)>, env: Seq<char>, r: Seq<(Seq<char>, Seq<EntryView>)>) -> bool {
    forall|x: Seq<char>| x != env ==> #[trigger] entries_of(r, x) == entries_of(c, x)
}

/// What [`with_env`] does to a catalog in name order: it stays in name order, `env`
/// gets `s`, no other environment changes, and no other environment appears.
#[verifier::opaque]
spec fn with_env_facts(c: Seq<(Seq<char>, Seq<EntryView>)>, env: Seq<char>, s: Seq<EntryView>) -> bool {
    let r = with_env(c, env, s);
    &&& catalog_sorted(r)
    &&& entries_of(r, env) == s
    &&& exists|k: int| 0 <= k < r.len() && #[trigger] r[k].0 == env
    &&& others_kept(c, env, r)
    &&& names_from(c, env, r)
}

proof fn lemma_sorted_prefix(c: Seq<(Seq<char>, Seq<EntryView>)>)
    requires
        catalog_sorted(c),
        c.len() > 0,
    ensures
        catalog_sorted(c.drop_last()),
{
    let d = c.drop_last();
    assert forall|i: int, j: int| 0 <= i < j < d.len() implies #[trigger] name_lt(d, i, j) by {
        assert(name_lt(c, i, j));
    }
}

proof fn lemma_with_env(c: Seq<(Seq<char>, Seq<EntryView>)>, env: Seq<char>, s: Seq<EntryView>)
    requires
        catalog_sorted(c),
    ensures
        with_env_facts(c, env, s),
    decreases c.len(),
{
    if c.len() == 0 {
        lemma_with_env_empty(c, env, s);
    } else if c.last().0 == env {
        lemma_with_env_replace(c, env, s);
    } else if crate::order::seq_lt(env, c.last().0) {
        lemma_sorted_prefix(c);
        lemma_with_env(c.drop_last(), env, s);
        lemma_with_env_before(c, env, s);
    } else {
        lemma_with_env_after(c, env, s);
    }
}

proof fn lemma_with_env_empty(c: Seq<(Seq<char>, Seq<EntryView>)>, env: Seq<char>, s: Seq<EntryView>)
    requires
        c.len() == 0,
    ensures
        with_env_facts(c, env, s),
{
    reveal(with_env_facts);
    let r = with_env(c, env, s);
    assert(r =~= seq![(env, s)]);
    assert(r[0].0 == env);
    assert forall|x: Seq<char>| x != env implies #[trigger] entries_of(r, x) == entries_of(c, x) by {
        lemma_entries_absent(r, x);
        lemma_entries_absent(c, x);
    }
    lemma_entries_at(r, env, 0);
}

/// Replacing the entries at one place keeps names, order and the other places.
proof fn lemma_same_names(c: Seq<(Seq<char>, Seq<EntryView>)>, env: Seq<char>, r: Seq<(Seq<char>, Seq<EntryView>)>, n: int,
    s: Seq<EntryView>)
    requires
        catalog_sorted(c),
        0 <= n < c.len(),
        c[n].0 == env,
        r == c.update(n, (env, s)),
    ensures
        catalog_sorted(r),
        names_from(c, env, r),
        others_kept(c, env, r),
        entries_of(r, env) == s,
{
    assert forall|i: int, j: int| 0 <= i < j < r.len() implies #[trigger] name_lt(r, i, j) by {
        assert(name_lt(c, i, j));
    }
    lemma_entries_at(r, env, n);
    assert forall|x: Seq<char>| x != env implies #[trigger] entries_of(r, x) == entries_of(c, x) by {
        if exists|k: int| 0 <= k < c.len() && c[k].0 == x {
            let k = choose|k: int| 0 <= k < c.len() && c[k].0 == x;
            lemma_entries_at(r, x, k);
            lemma_entries_at(c, x, k);
        } else {
            assert forall|i: int| 0 <= i < r.len() implies r[i].0 != x by {
                assert(r[i].0 == c[i].0);
            }
            lemma_entries_absent(r, x);
            lemma_entries_absent(c, x);
        }
    }
    assert forall|i: int| 0 <= i < r.len() implies #[trigger] r[i].0 == env
        || exists|j: int| 0 <= j < c.len() && c[j].0 == r[i].0 by {
        assert(c[i].0 == r[i].0);
    }
    assert forall|j: int| 0 <= j < c.len() implies exists|i: int| 0 <= i < r.len() && r[i].0 == #[trigger] c[j].0 by {
        assert(r[j].0 == c[j].0);
    }
}

proof fn lemma_with_env_replace(c: Seq<(Seq<char>, Seq<EntryView>)>, env: Seq<char>, s: Seq<EntryView>)
    requires
        catalog_sorted(c),
        c.len() > 0,
        c.last().0 == env,
    ensures
        with_env_facts(c, env, s),
{
    let r = with_env(c, env, s);
    let n = c.len() - 1;
    assert(r =~= c.update(n, (env, s)));
    lemma_same_names(c, env, r, n, s);
    assert(r[n].0 == env);
    reveal(with_env_facts);
}

proof fn lemma_with_env_before(c: Seq<(Seq<char>, Seq<EntryView>)>, env: Seq<char>, s: Seq<EntryView>)
    requires
        catalog_sorted(c),
        c.len() > 0,
        c.last().0 != env,
        crate::order::seq_lt(env, c.last().0),
        with_env_facts(c.drop_last(), env, s),
    ensures
        with_env_facts(c, env, s),
{
    let r = with_env(c, env, s);
    let d = c.drop_last();
    let rd = with_env(d, env, s);
    assert(r == rd.push(c.last()));
    assert(catalog_sorted(rd) && names_from(d, env, rd) && others_kept(d, env, rd) && entries_of(rd, env) == s
        && exists|k: int| 0 <= k < rd.len() && #[trigger] rd[k].0 == env) by {
        reveal(with_env_facts);
    }
    let ke = choose|k: int| 0 <= k < rd.len() && #[trigger] rd[k].0 == env;
    lemma_push_last_names(c, env, rd, r);
    assert(r[ke] == rd[ke]);
    lemma_entries_at(rd, env, ke);
    lemma_entries_at(r, env, ke);
    lemma_sorted_prefix(c);
    lemma_push_last_entries(c, env, rd, r);
    reveal(with_env_facts);
}

proof fn lemma_push_last_names(c: Seq<(Seq<char>, Seq<EntryView>)>, env: Seq<char>, rd: Seq<(Seq<char>, Seq<EntryView>)>,
    r: Seq<(Seq<char>, Seq<EntryView>)>)
    requires
        catalog_sorted(c),
        c.len() > 0,
        crate::order::seq_lt(env, c.last().0),
        catalog_sorted(rd),
        names_from(c.drop_last(), env, rd),
        r == rd.push(c.last()),
    ensures
        catalog_sorted(r),
        names_from(c, env, r),
{
    let d = c.drop_last();
    let last = c.last();
    let n = c.len() - 1;
    assert forall|i: int| 0 <= i < rd.len() implies crate::order::seq_lt(#[trigger] rd[i].0, last.0) by {
        if rd[i].0 != env {
            let j = choose|j: int| 0 <= j < d.len() && d[j].0 == rd[i].0;
            assert(d[j] == c[j]);
            assert(name_lt(c, j, n));
        }
    }
    assert forall|i: int, j: int| 0 <= i < j < r.len() implies #[trigger] name_lt(r, i, j) by {
        if j == rd.len() {
            assert(r[i] == rd[i]);
            assert(crate::order::seq_lt(rd[i].0, last.0));
        } else {
            assert(r[i] == rd[i] && r[j] == rd[j]);
            assert(name_lt(rd, i, j));
        }
    }
    assert forall|i: int| 0 <= i < r.len() implies #[trigger] r[i].0 == env
        || exists|j: int| 0 <= j < c.len() && c[j].0 == r[i].0 by {
        if i == rd.len() {
            assert(c[n].0 == r[i].0);
        } else {
            assert(r[i] == rd[i]);
            if rd[i].0 != env {
                let j = choose|j: int| 0 <= j < d.len() && d[j].0 == rd[i].0;
                assert(d[j] == c[j]);
            }
        }
    }
    assert forall|j: int| 0 <= j < c.len() implies exists|i: int| 0 <= i < r.len() && r[i].0 == #[trigger] c[j].0 by {
        if j == n {
            assert(r[rd.len() as int].0 == c[j].0);
        } else {
            assert(d[j] == c[j]);
            let m = choose|i: int| 0 <= i < rd.len() && rd[i].0 == #[trigger] d[j].0;
            assert(r[m] == rd[m]);
        }
    }
}

proof fn lemma_push_last_entries(c: Seq<(Seq<char>, Seq<EntryView>)>, env: Seq<char>, rd: Seq<(Seq<char>, Seq<EntryView>)>,
    r: Seq<(Seq<char>, Seq<EntryView>)>)
    requires
        catalog_sorted(c),
        catalog_sorted(c.drop_last()),
        c.len() > 0,
        c.last().0 != env,
        catalog_sorted(rd),
        catalog_sorted(r),
        names_from(c.drop_last(), env, rd),
        others_kept(c.drop_last(), env, rd),
        r == rd.push(c.last()),
    ensures
        others_kept(c, env, r),
{
    let d = c.drop_last();
    let last = c.last();
    let n = c.len() - 1;
    assert forall|x: Seq<char>| x != env implies #[trigger] entries_of(r, x) == entries_of(c, x) by {
        if x == last.0 {
            lemma_entries_at(r, x, rd.len() as int);
            lemma_entries_at(c, x, n);
        } else if exists|k: int| 0 <= k < d.len() && d[k].0 == x {
            let k = choose|k: int| 0 <= k < d.len() && d[k].0 == x;
            assert(d[k] == c[k]);
            lemma_entries_at(c, x, k);
            lemma_entries_at(d, x, k);
            assert(entries_of(rd, x) == entries_of(d, x));
            let m = choose|i: int| 0 <= i < rd.len() && rd[i].0 == #[trigger] d[k].0;
            assert(r[m] == rd[m]);
            lemma_entries_at(rd, x, m);
            lemma_entries_at(r, x, m);
        } else {
            assert forall|i: int| 0 <= i < c.len() implies c[i].0 != x by {
                if i < n {
                    assert(d[i] == c[i]);
                }
            }
            assert forall|i: int| 0 <= i < r.len() implies r[i].0 != x by {
                if i < rd.len() {
                    assert(r[i] == rd[i]);
                }
            }
            lemma_entries_absent(r, x);
            lemma_entries_absent(c, x);
        }
    }
}

proof fn lemma_with_env_after(c: Seq<(Seq<char>, Seq<EntryView>)>, env: Seq<char>, s: Seq<EntryView>)
    requires
        catalog_sorted(c),
        c.len() > 0,
        c.last().0 != env,
        !crate::order::seq_lt(env, c.last().0),
    ensures
        with_env_facts(c, env, s),
{
    let r = with_env(c, env, s);
    let n = c.len() - 1;
    crate::order::lemma_lt_total(env, c.last().0);
    assert(r == c.push((env, s)));
    lemma_push_env_sorted(c, env, s, r);
    assert(r[c.len() as int].0 == env);
    lemma_entries_at(r, env, c.len() as int);
    assert forall|x: Seq<char>| x != env implies #[trigger] entries_of(r, x) == entries_of(c, x) by {
        if exists|k: int| 0 <= k < c.len() && c[k].0 == x {
            let k = choose|k: int| 0 <= k < c.len() && c[k].0 == x;
            assert(r[k] == c[k]);
            lemma_entries_at(r, x, k);
            lemma_entries_at(c, x, k);
        } else {
            assert forall|i: int| 0 <= i < r.len() implies r[i].0 != x by {
                if i < c.len() {
                    assert(r[i] == c[i]);
                }
            }
            lemma_entries_absent(r, x);
            lemma_entries_absent(c, x);
        }
    }
    assert forall|i: int| 0 <= i < r.len() implies #[trigger] r[i].0 == env
        || exists|j: int| 0 <= j < c.len() && c[j].0 == r[i].0 by {
        if i < c.len() {
            assert(c[i].0 == r[i].0);
        }
    }
    assert forall|j: int| 0 <= j < c.len() implies exists|i: int| 0 <= i < r.len() && r[i].0 == #[trigger] c[j].0 by {
        assert(r[j] == c[j]);
    }
    reveal(with_env_facts);
}

proof fn lemma_push_env_sorted(c: Seq<(Seq<char>, Seq<EntryView>)>, env: Seq<char>, s: Seq<EntryView>,
    r: Seq<(Seq<char>, Seq<EntryView>)>)
    requires
        catalog_sorted(c),
        c.len() > 0,
        crate::order::seq_lt(c.last().0, env),
        r == c.push((env, s)),
    ensures
        catalog_sorted(r),
{
    let n = c.len() - 1;
    assert forall|i: int, j: int| 0 <= i < j < r.len() implies #[trigger] name_lt(r, i, j) by {
        if j == c.len() {
            assert(r[i] == c[i]);
            if i < n {
                assert(name_lt(c, i, n));
                crate::order::lemma_lt_transitive(c[i].0, c[n].0, env);
            }
        } else {
            assert(r[i] == c[i] && r[j] == c[j]);
            assert(name_lt(c, i, j));
        }
    }
}

/// Migrating twice does nothing the second time: once an environment's old deployment
/// diagram has been renamed, the environment is no longer a migration target, the
/// catalog stays in name order, and no other environment's diagrams have changed.
pub proof fn lemma_renamed_environment_is_settled(c: Seq<(Seq<char>, Seq<EntryView>)>, env: Seq<char>)
    requires
        catalog_sorted(c),
        to_migrate(c).contains(env),
    ensures
        !to_migrate(renamed(c, env)).contains(env),
        catalog_sorted(renamed(c, env)),
        forall|x: Seq<char>| x != env ==> #[trigger] entries_of(renamed(c, env), x) == entries_of(c, x),
{
    let pred = |p: (Seq<char>, Seq<EntryView>)| !entry_names(p.1).contains(deployment_name())
        && entry_names(p.1).contains(legacy_name());
    let name_of = |p: (Seq<char>, Seq<EntryView>)| p.0;
    let f = c.filter(pred);
    assert(to_migrate(c) == f.map_values(name_of));
    let i = choose|i: int| 0 <= i < f.len() && f.map_values(name_of)[i] == env;
    assert(f.contains(f[i]));
    c.lemma_filter_contains_rev(pred, f[i]);
    c.lemma_filter_pred(pred, i);
    let k = choose|k: int| 0 <= k < c.len() && c[k] == f[i];
    lemma_entries_at(c, env, k);
    let es = entries_of(c, env);
    crate::logical::lemma_first_index_contains(entry_names(es), legacy_name());
    crate::logical::lemma_first_index(entry_names(es), legacy_name());
    let m = crate::logical::first_index(entry_names(es), legacy_name()).unwrap();
    let s2 = es.update(m, EntryView { name: deployment_name(), model: es[m].model, kind: es[m].kind });
    let c2 = renamed(c, env);
    assert(c2 == with_env(c, env, s2));
    lemma_with_env(c, env, s2);
    reveal(with_env_facts);
    assert(entry_names(s2)[m] == deployment_name());
    assert(entry_names(s2).contains(deployment_name()));
    let f2 = c2.filter(pred);
    if to_migrate(c2).contains(env) {
        assert(to_migrate(c2) == f2.map_values(name_of));
        let i2 = choose|i2: int| 0 <= i2 < f2.len() && f2.map_values(name_of)[i2] == env;
        assert(f2.contains(f2[i2]));
        c2.lemma_filter_contains_rev(pred, f2[i2]);
        c2.lemma_filter_pred(pred, i2);
        let k2 = choose|k2: int| 0 <= k2 < c2.len() && c2[k2] == f2[i2];
        lemma_entries_at(c2, env, k2);
    }
}

// ---- the fingerprint ----

pub open spec fn fnv_step(h: u64, b: u8) -> u64 {
    (h ^ (b as u64)).wrapping_mul(0x100000001b3u64)
}

/// FNV-1a over the bytes, from the given start.
pub open spec fn fnv(h: u64, bytes: Seq<u8>) -> u64
    decreases bytes.len(),
{
    if bytes.len() == 0 {
        h
    } else {
        fnv_step(fnv(h, bytes.drop_last()), bytes.last())
    }
}

pub open spec fn hex_char(d: nat) -> char {
    if d < 10 {
        ((('0' as u32) + d) as char)
    } else {
        ((('a' as u32) + (d - 10)) as char)
    }
}

/// The lowest `n` hex digits of a number, most significant first, zeros kept.
pub open spec fn hex_digits(h: nat, n: nat) -> Seq<char>
    decreases n,
{
    if n == 0 {
        seq![]
    } else {
        hex_digits(h / 16, (n - 1) as nat).push(hex_char(h % 16))
    }
}

/// The fingerprint of the model from its two texts (the logical layer and the
/// environment): FNV-1a over the first, a newline and the second, as sixteen hex digits.
/// A hash of its own, not the std one, which may change between Rust versions and would
/// make every saved diagram look stale.
pub open spec fn fingerprint_spec(logical: Seq<u8>, environment: Seq<u8>) -> Seq<char> {
    hex_digits(fnv(0xcbf29ce484222325u64, logical + seq![10u8] + environment) as nat, 16)
}

fn hex_digit(d: u64) -> (c: char)
    requires
        d < 16,
    ensures
        c == hex_char(d as nat),
{
    let c = match d {
        0 => '0',
        1 => '1',
        2 => '2',
        3 => '3',
        4 => '4',
        5 => '5',
        6 => '6',
        7 => '7',
        8 => '8',
        9 => '9',
        10 => 'a',
        11 => 'b',
        12 => 'c',
        13 => 'd',
        14 => 'e',
        _ => 'f',
    };
    c
}

fn hex_text(h: u64, n: u32) -> (r: Vec<char>)
    ensures
        r@ == hex_digits(h as nat, n as nat),
    decreases n,
{
    if n == 0 {
        return Vec::new();
    }
    let mut v = hex_text(h / 16, n - 1);
    v.push(hex_digit(h % 16));
    v
}

fn fnv_over(h0: u64, bytes: &[u8]) -> (r: u64)
    ensures
        r == fnv(h0, bytes@),
{
    let mut h = h0;
    let mut i: usize = 0;
    while i < bytes.len()
        invariant
            i <= bytes@.len(),
            h == fnv(h0, bytes@.take(i as int)),
        decreases bytes.len() - i,
    {
        proof {
            assert(bytes@.take(i + 1).drop_last() =~= bytes@.take(i as int));
        }
        h = (h ^ (bytes[i] as u64)).wrapping_mul(0x100000001b3u64);
        i += 1;
    }
    assert(bytes@.take(i as int) =~= bytes@);
    h
}

proof fn lemma_fnv_concat(h: u64, a: Seq<u8>, b: Seq<u8>)
    ensures
        fnv(h, a + b) == fnv(fnv(h, a), b),
    decreases b.len(),
{
    if b.len() == 0 {
        assert(a + b =~= a);
    } else {
        lemma_fnv_concat(h, a, b.drop_last());
        assert((a + b).drop_last() =~= a + b.drop_last());
    }
}

/// The fingerprint from the texts of the logical layer and of the environment.
pub fn fingerprint_of(logical: &str, environment: &str) -> (r: String)
    ensures
        r@ == fingerprint_spec(logical.spec_bytes(), environment.spec_bytes()),
{
    let a = logical.as_bytes();
    let b = environment.as_bytes();
    let h1 = fnv_over(0xcbf29ce484222325u64, a);
    let h2 = (h1 ^ 10u64).wrapping_mul(0x100000001b3u64);
    let h3 = fnv_over(h2, b);
    proof {
        let nl: Seq<u8> = seq![10u8];
        lemma_fnv_concat(0xcbf29ce484222325u64, a@, nl);
        assert(fnv(h1, nl) == fnv_step(fnv(h1, Seq::<u8>::empty()), 10u8)) by {
            assert(nl.drop_last() =~= Seq::<u8>::empty());
        }
        lemma_fnv_concat(0xcbf29ce484222325u64, a@ + nl, b@);
    }
    let digits = hex_text(h3, 16);
    crate::text::string_of(&digits)
}

} // verus!
