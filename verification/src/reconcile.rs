//! Reconciling a diagram with the model.
//!
//! Neither side is the master; both can change. The job is not to synchronise but to
//! point out what disagrees and let a person decide. A snapshot of the last agreed
//! state (the base) tells "deleted on the diagram" from "added to the model", as in a
//! three-way merge.

use vstd::prelude::*;
use crate::environment::{DeploymentNode, DeploymentNodeView, Environment, EnvironmentView, nodes_view,
    lemma_children_view};
use crate::id::Id;
use crate::order::{seq_lt, strictly_sorted, ids_view, insert_sorted_unique, lemma_lt_irreflexive,
    lemma_lt_asymmetric, text_lt, lemma_lt_total, lemma_lt_transitive};

verus! {

/// Where the base snapshots are stored.
pub const SYNC_STATE_PATH: &'static str = "diagrams/.sync-state.yaml";

/// What a model element is. Used for display and for "create it in the model?" hints.
#[derive(Debug, Clone, Copy, PartialEq, Eq, Structural, Hash)]
pub enum ElementKind {
    DeploymentNode,
    ContainerInstance,
    InfrastructureNode,
    SoftwareSystemInstance,
    Connection,
}

/// One element on the model's side.
#[derive(Debug, Clone, PartialEq, Eq)]
pub struct ModelElement {
    pub id: Id,
    pub kind: ElementKind,
    pub label: String,
}

pub struct ModelElementView {
    pub id: Seq<char>,
    pub kind: ElementKind,
    pub label: Seq<char>,
}

impl View for ModelElement {
    type V = ModelElementView;

    open spec fn view(&self) -> ModelElementView {
        ModelElementView { id: self.id@, kind: self.kind, label: self.label@ }
    }
}

/// One shape on the diagram's side, as found in the drawing.
#[derive(Debug, Clone, PartialEq, Eq)]
pub struct DiagramElement {
    pub id: Id,
    pub label: String,
}

pub struct DiagramElementView {
    pub id: Seq<char>,
    pub label: Seq<char>,
}

impl View for DiagramElement {
    type V = DiagramElementView;

    open spec fn view(&self) -> DiagramElementView {
        DiagramElementView { id: self.id@, label: self.label@ }
    }
}

pub open spec fn model_view(s: Seq<ModelElement>) -> Seq<ModelElementView> {
    s.map_values(|e: ModelElement| e@)
}

pub open spec fn diagram_view(s: Seq<DiagramElement>) -> Seq<DiagramElementView> {
    s.map_values(|e: DiagramElement| e@)
}

/// The state last agreed on, one per diagram.
#[derive(Debug, Clone, PartialEq, Eq)]
pub struct SyncSnapshot {
    pub elements: Vec<DiagramElement>,
}

impl Default for SyncSnapshot {
    fn default() -> (r: SyncSnapshot)
        ensures
            r.elements@.len() == 0,
    {
        SyncSnapshot { elements: Vec::new() }
    }
}

impl SyncSnapshot {
    /// A copy of the snapshot.
    pub fn copy(&self) -> (r: SyncSnapshot)
        ensures
            diagram_view(r.elements@) == diagram_view(self.elements@),
    {
        SyncSnapshot { elements: copy_diagram(&self.elements) }
    }
}

/// The base snapshots of every diagram, keyed by the diagram's relative path.
///
/// The keys are kept in a list that holds each path once.
#[derive(Debug, Clone, PartialEq, Eq)]
pub struct SyncState {
    pub diagrams: Vec<(String, SyncSnapshot)>,
}

impl Default for SyncState {
    fn default() -> (r: SyncState)
        ensures
            r.diagrams@.len() == 0,
    {
        SyncState { diagrams: Vec::new() }
    }
}

pub open spec fn state_keys(s: Seq<(String, SyncSnapshot)>) -> Seq<Seq<char>> {
    s.map_values(|p: (String, SyncSnapshot)| p.0@)
}

impl SyncState {
    /// The base snapshot of one diagram; an empty one when it was never reconciled.
    pub fn snapshot(&self, diagram: &str) -> (r: SyncSnapshot)
        ensures
            match crate::logical::first_index(state_keys(self.diagrams@), diagram@) {
                Some(k) => diagram_view(r.elements@) == diagram_view(self.diagrams@[k].1.elements@),
                None => r.elements@.len() == 0,
            },
    {
        proof {
            crate::logical::lemma_first_index(state_keys(self.diagrams@), diagram@);
        }
        let key = diagram.to_string();
        let mut i: usize = 0;
        while i < self.diagrams.len()
            invariant
                i <= self.diagrams.len(),
                key@ == diagram@,
                forall|j: int| 0 <= j < i ==> self.diagrams@[j].0@ != diagram@,
            decreases self.diagrams.len() - i,
        {
            if self.diagrams[i].0 == key {
                proof {
                    assert(state_keys(self.diagrams@)[i as int] == diagram@);
                    crate::logical::lemma_first_index_unique(state_keys(self.diagrams@), diagram@, i as int);
                }
                return self.diagrams[i].1.copy();
            }
            i += 1;
        }
        SyncSnapshot::default()
    }
}

/// One disagreement.
#[derive(Debug, Clone, PartialEq, Eq)]
pub struct Difference {
    pub id: Id,
    /// A name to show, taken from the best source at hand.
    pub label: String,
    pub kind: DifferenceKind,
}

#[derive(Debug, Clone, PartialEq, Eq)]
pub enum DifferenceKind {
    /// In the base, gone from the diagram: it was deleted on the diagram.
    RemovedFromDiagram,
    /// In the base, gone from the model: deleted in the model, still drawn.
    RemovedFromModel,
    /// Not in the base, only in the model: added to the model, not yet drawn.
    AddedToModel { kind: ElementKind },
    /// Not in the base, only on the diagram: a bound shape the model does not know.
    AddedToDiagram,
    /// Only the model renamed it.
    RenamedInModel { from: String, to: String },
    /// Only the diagram renamed it.
    RenamedInDiagram { from: String, to: String },
    /// Both renamed it, differently. A person must decide.
    RenameConflict { base: Option<String>, model: String, diagram: String },
}

pub enum DifferenceKindView {
    RemovedFromDiagram,
    RemovedFromModel,
    AddedToModel { kind: ElementKind },
    AddedToDiagram,
    RenamedInModel { from: Seq<char>, to: Seq<char> },
    RenamedInDiagram { from: Seq<char>, to: Seq<char> },
    RenameConflict { base: Option<Seq<char>>, model: Seq<char>, diagram: Seq<char> },
}

impl View for DifferenceKind {
    type V = DifferenceKindView;

    open spec fn view(&self) -> DifferenceKindView {
        match self {
            DifferenceKind::RemovedFromDiagram => DifferenceKindView::RemovedFromDiagram,
            DifferenceKind::RemovedFromModel => DifferenceKindView::RemovedFromModel,
            DifferenceKind::AddedToModel { kind } => DifferenceKindView::AddedToModel { kind: *kind },
            DifferenceKind::AddedToDiagram => DifferenceKindView::AddedToDiagram,
            DifferenceKind::RenamedInModel { from, to } => DifferenceKindView::RenamedInModel { from: from@, to: to@ },
            DifferenceKind::RenamedInDiagram { from, to } => DifferenceKindView::RenamedInDiagram { from: from@, to: to@ },
            DifferenceKind::RenameConflict { base, model, diagram } => DifferenceKindView::RenameConflict {
                base: crate::environment::opt_text_view(*base),
                model: model@,
                diagram: diagram@,
            },
        }
    }
}

pub struct DifferenceView {
    pub id: Seq<char>,
    pub label: Seq<char>,
    pub kind: DifferenceKindView,
}

impl View for Difference {
    type V = DifferenceView;

    open spec fn view(&self) -> DifferenceView {
        DifferenceView { id: self.id@, label: self.label@, kind: self.kind@ }
    }
}

/// What a person may choose to do with a difference.
#[derive(Debug, Clone, Copy, PartialEq, Eq)]
pub enum Resolution {
    AddToDiagram,
    RemoveFromDiagram,
    CreateInModel,
    RemoveFromModel,
    /// This element is deliberately left off this diagram.
    LeaveOffDiagram,
    UseModelLabel,
    UseDiagramLabel,
}

/// The choices for a kind of difference, the usual one first.
pub open spec fn resolutions_of(k: DifferenceKindView) -> Seq<Resolution> {
    match k {
        DifferenceKindView::RemovedFromDiagram => seq![Resolution::AddToDiagram, Resolution::RemoveFromModel],
        DifferenceKindView::RemovedFromModel => seq![Resolution::RemoveFromDiagram, Resolution::CreateInModel],
        DifferenceKindView::AddedToModel { .. } => seq![Resolution::AddToDiagram, Resolution::LeaveOffDiagram],
        DifferenceKindView::AddedToDiagram => seq![Resolution::CreateInModel, Resolution::RemoveFromDiagram],
        DifferenceKindView::RenamedInModel { .. } => seq![Resolution::UseModelLabel, Resolution::UseDiagramLabel],
        DifferenceKindView::RenamedInDiagram { .. } => seq![Resolution::UseDiagramLabel, Resolution::UseModelLabel],
        DifferenceKindView::RenameConflict { .. } => seq![Resolution::UseModelLabel, Resolution::UseDiagramLabel],
    }
}

fn two(a: Resolution, b: Resolution) -> (r: Vec<Resolution>)
    ensures
        r@ == seq![a, b],
{
    let mut v: Vec<Resolution> = Vec::new();
    v.push(a);
    v.push(b);
    assert(v@ =~= seq![a, b]);
    v
}

impl DifferenceKind {
    /// How this kind of difference can be handled, the usual choice first.
    pub fn resolutions(&self) -> (r: Vec<Resolution>)
        ensures
            r@ == resolutions_of(self@),
            r@.len() >= 2,
    {
        match self {
            DifferenceKind::RemovedFromDiagram => two(Resolution::AddToDiagram, Resolution::RemoveFromModel),
            DifferenceKind::RemovedFromModel => two(Resolution::RemoveFromDiagram, Resolution::CreateInModel),
            DifferenceKind::AddedToModel { .. } => two(Resolution::AddToDiagram, Resolution::LeaveOffDiagram),
            DifferenceKind::AddedToDiagram => two(Resolution::CreateInModel, Resolution::RemoveFromDiagram),
            DifferenceKind::RenamedInModel { .. } => two(Resolution::UseModelLabel, Resolution::UseDiagramLabel),
            DifferenceKind::RenamedInDiagram { .. } => two(Resolution::UseDiagramLabel, Resolution::UseModelLabel),
            DifferenceKind::RenameConflict { .. } => two(Resolution::UseModelLabel, Resolution::UseDiagramLabel),
        }
    }

    /// Whether only a person can settle it; every other kind has a sensible default.
    pub fn needs_human(&self) -> (r: bool)
        ensures
            r == (self@ is RenameConflict),
    {
        match self {
            DifferenceKind::RenameConflict { .. } => true,
            _ => false,
        }
    }
}

impl Difference {
    /// How this difference can be handled, the usual choice first.
    pub fn resolutions(&self) -> (r: Vec<Resolution>)
        ensures
            r@ == resolutions_of(self@.kind),
    {
        self.kind.resolutions()
    }
}

/// Index of the last element of `ids` equal to `id` (a later entry wins, as in a map
/// built from the list).
pub open spec fn last_index(ids: Seq<Seq<char>>, id: Seq<char>) -> Option<int> {
    if exists|k: int| 0 <= k < ids.len() && ids[k] == id {
        Some(choose|k: int| 0 <= k < ids.len() && ids[k] == id && forall|j: int| k < j < ids.len() ==> ids[j] != id)
    } else {
        None
    }
}

pub proof fn lemma_last_index(ids: Seq<Seq<char>>, id: Seq<char>)
    ensures
        match last_index(ids, id) {
            Some(k) => 0 <= k < ids.len() && ids[k] == id && forall|j: int| k < j < ids.len() ==> ids[j] != id,
            None => forall|j: int| 0 <= j < ids.len() ==> ids[j] != id,
        },
{
    if exists|k: int| 0 <= k < ids.len() && ids[k] == id {
        let k0 = choose|k: int| 0 <= k < ids.len() && ids[k] == id;
        lemma_last_exists(ids, id, k0);
    }
}

proof fn lemma_last_exists(ids: Seq<Seq<char>>, id: Seq<char>, k0: int)
    requires
        0 <= k0 < ids.len(),
        ids[k0] == id,
    ensures
        exists|k: int| 0 <= k < ids.len() && ids[k] == id && forall|j: int| k < j < ids.len() ==> ids[j] != id,
    decreases ids.len() - k0,
{
    if exists|j: int| k0 < j < ids.len() && ids[j] == id {
        let j = choose|j: int| k0 < j < ids.len() && ids[j] == id;
        lemma_last_exists(ids, id, j);
    } else {
        assert(forall|j: int| k0 < j < ids.len() ==> ids[j] != id);
    }
}

pub proof fn lemma_last_index_unique(ids: Seq<Seq<char>>, id: Seq<char>, k: int)
    requires
        0 <= k < ids.len(),
        ids[k] == id,
        forall|j: int| k < j < ids.len() ==> ids[j] != id,
    ensures
        last_index(ids, id) == Some(k),
{
    lemma_last_index(ids, id);
    let m = last_index(ids, id).unwrap();
    if m < k {
        assert(ids[k] != id);
    }
    if k < m {
        assert(ids[m] != id);
    }
}

pub open spec fn model_ids(s: Seq<ModelElementView>) -> Seq<Seq<char>> {
    s.map_values(|e: ModelElementView| e.id)
}

pub open spec fn diagram_ids(s: Seq<DiagramElementView>) -> Seq<Seq<char>> {
    s.map_values(|e: DiagramElementView| e.id)
}

/// What the model says of an id: the last model element with it.
pub open spec fn model_entry(m: Seq<ModelElementView>, id: Seq<char>) -> Option<ModelElementView> {
    match last_index(model_ids(m), id) {
        Some(k) => Some(m[k]),
        None => None,
    }
}

/// What the diagram says of an id: the last shape bound to it.
pub open spec fn diagram_entry(d: Seq<DiagramElementView>, id: Seq<char>) -> Option<DiagramElementView> {
    match last_index(diagram_ids(d), id) {
        Some(k) => Some(d[k]),
        None => None,
    }
}

/// What the base says of an id: the label of the first snapshot entry with it.
pub open spec fn base_label(b: Seq<DiagramElementView>, id: Seq<char>) -> Option<Seq<char>> {
    match crate::logical::first_index(diagram_ids(b), id) {
        Some(k) => Some(b[k].label),
        None => None,
    }
}

/// The difference on an element present on both sides: only the names can disagree.
pub open spec fn label_difference(
    id: Seq<char>,
    base: Option<Seq<char>>,
    model: ModelElementView,
    diagram: DiagramElementView,
) -> Option<DifferenceView> {
    if model.label == diagram.label {
        None
    } else {
        let kind = match base {
            Some(b) => if model.label == b {
                DifferenceKindView::RenamedInDiagram { from: b, to: diagram.label }
            } else if diagram.label == b {
                DifferenceKindView::RenamedInModel { from: b, to: model.label }
            } else {
                DifferenceKindView::RenameConflict { base: Some(b), model: model.label, diagram: diagram.label }
            },
            None => DifferenceKindView::RenameConflict { base: None, model: model.label, diagram: diagram.label },
        };
        Some(DifferenceView { id, label: model.label, kind })
    }
}

/// The three-way verdict on one id.
pub open spec fn verdict(
    m: Seq<ModelElementView>,
    d: Seq<DiagramElementView>,
    b: Seq<DiagramElementView>,
    id: Seq<char>,
) -> Option<DifferenceView> {
    match (base_label(b, id), model_entry(m, id), diagram_entry(d, id)) {
        (base, Some(me), Some(de)) => label_difference(id, base, me, de),
        (Some(_), Some(me), None) => Some(DifferenceView { id, label: me.label, kind: DifferenceKindView::RemovedFromDiagram }),
        (Some(_), None, Some(de)) => Some(DifferenceView { id, label: de.label, kind: DifferenceKindView::RemovedFromModel }),
        (Some(_), None, None) => None,
        (None, Some(me), None) => Some(DifferenceView {
            id,
            label: me.label,
            kind: DifferenceKindView::AddedToModel { kind: me.kind },
        }),
        (None, None, Some(de)) => Some(DifferenceView { id, label: de.label, kind: DifferenceKindView::AddedToDiagram }),
        (None, None, None) => None,
    }
}

/// Every id mentioned on any of the three sides.
pub open spec fn all_ids(m: Seq<ModelElementView>, d: Seq<DiagramElementView>, b: Seq<DiagramElementView>) -> Set<Seq<char>> {
    model_ids(m).to_set() + diagram_ids(d).to_set() + diagram_ids(b).to_set()
}

pub open spec fn diffs_view(s: Seq<Difference>) -> Seq<DifferenceView> {
    s.map_values(|x: Difference| x@)
}

/// A copy of a list of diagram elements.
pub fn copy_diagram(v: &Vec<DiagramElement>) -> (r: Vec<DiagramElement>)
    ensures
        diagram_view(r@) == diagram_view(v@),
{
    let mut out: Vec<DiagramElement> = Vec::new();
    let mut i: usize = 0;
    while i < v.len()
        invariant
            i <= v.len(),
            diagram_view(out@) == diagram_view(v@).take(i as int),
        decreases v.len() - i,
    {
        let ghost before = out@;
        let e = DiagramElement { id: v[i].id.copy(), label: v[i].label.clone() };
        out.push(e);
        proof {
            assert(diagram_view(out@) =~= diagram_view(before).push(e@));
            assert(diagram_view(v@).take(i + 1) =~= diagram_view(v@).take(i as int).push(v@[i as int]@));
        }
        i += 1;
    }
    assert(diagram_view(v@).take(i as int) =~= diagram_view(v@));
    out
}

/// The last model element with this id.
fn find_model<'a>(model: &'a Vec<ModelElement>, id: &Id) -> (r: Option<&'a ModelElement>)
    ensures
        match model_entry(model_view(model@), id@) {
            Some(e) => r matches Some(x) && x@ == e,
            None => r is None,
        },
{
    let ghost ids = model_ids(model_view(model@));
    proof {
        lemma_last_index(ids, id@);
    }
    let mut i: usize = model.len();
    while i > 0
        invariant
            i <= model.len(),
            ids == model_ids(model_view(model@)),
            forall|j: int| i <= j < model.len() ==> ids[j] != id@,
        decreases i,
    {
        let k = i - 1;
        if model[k].id.same(id) {
            proof {
                lemma_last_index_unique(ids, id@, k as int);
            }
            return Some(&model[k]);
        }
        assert(ids[k as int] == model@[k as int].id@);
        i = k;
    }
    None
}

/// The last diagram element with this id.
fn find_diagram<'a>(d: &'a Vec<DiagramElement>, id: &Id) -> (r: Option<&'a DiagramElement>)
    ensures
        match diagram_entry(diagram_view(d@), id@) {
            Some(e) => r matches Some(x) && x@ == e,
            None => r is None,
        },
{
    let ghost ids = diagram_ids(diagram_view(d@));
    proof {
        lemma_last_index(ids, id@);
    }
    let mut i: usize = d.len();
    while i > 0
        invariant
            i <= d.len(),
            ids == diagram_ids(diagram_view(d@)),
            forall|j: int| i <= j < d.len() ==> ids[j] != id@,
        decreases i,
    {
        let k = i - 1;
        if d[k].id.same(id) {
            proof {
                lemma_last_index_unique(ids, id@, k as int);
            }
            return Some(&d[k]);
        }
        assert(ids[k as int] == d@[k as int].id@);
        i = k;
    }
    None
}

/// The label of the first base entry with this id.
fn base_label_of<'a>(b: &'a Vec<DiagramElement>, id: &Id) -> (r: Option<&'a String>)
    ensures
        match base_label(diagram_view(b@), id@) {
            Some(l) => r matches Some(x) && x@ == l,
            None => r is None,
        },
{
    let ghost ids = diagram_ids(diagram_view(b@));
    proof {
        crate::logical::lemma_first_index(ids, id@);
    }
    let mut i: usize = 0;
    while i < b.len()
        invariant
            i <= b.len(),
            ids == diagram_ids(diagram_view(b@)),
            forall|j: int| 0 <= j < i ==> ids[j] != id@,
        decreases b.len() - i,
    {
        if b[i].id.same(id) {
            proof {
                crate::logical::lemma_first_index_unique(ids, id@, i as int);
            }
            return Some(&b[i].label);
        }
        assert(ids[i as int] == b@[i as int].id@);
        i += 1;
    }
    None
}

fn compare_labels(id: &Id, base: Option<&String>, model: &ModelElement, diagram: &DiagramElement) -> (r: Option<Difference>)
    ensures
        match label_difference(id@, match base { Some(s) => Some(s@), None => None }, model@, diagram@) {
            Some(x) => r matches Some(y) && y@ == x,
            None => r is None,
        },
{
    if model.label == diagram.label {
        return None;
    }
    let kind = match base {
        Some(b) => if model.label == *b {
            DifferenceKind::RenamedInDiagram { from: b.clone(), to: diagram.label.clone() }
        } else if diagram.label == *b {
            DifferenceKind::RenamedInModel { from: b.clone(), to: model.label.clone() }
        } else {
            DifferenceKind::RenameConflict {
                base: Some(b.clone()),
                model: model.label.clone(),
                diagram: diagram.label.clone(),
            }
        },
        None => DifferenceKind::RenameConflict { base: None, model: model.label.clone(), diagram: diagram.label.clone() },
    };
    Some(Difference { id: id.copy(), label: model.label.clone(), kind })
}

fn verdict_of(model: &Vec<ModelElement>, diagram: &Vec<DiagramElement>, base: &SyncSnapshot, id: &Id) -> (r: Option<Difference>)
    ensures
        match verdict(model_view(model@), diagram_view(diagram@), diagram_view(base.elements@), id@) {
            Some(x) => r matches Some(y) && y@ == x,
            None => r is None,
        },
{
    let in_base = base_label_of(&base.elements, id);
    let in_model = find_model(model, id);
    let in_diagram = find_diagram(diagram, id);
    match (in_model, in_diagram) {
        (Some(m), Some(d)) => compare_labels(id, in_base, m, d),
        (Some(m), None) => {
            if in_base.is_some() {
                Some(Difference { id: id.copy(), label: m.label.clone(), kind: DifferenceKind::RemovedFromDiagram })
            } else {
                Some(Difference { id: id.copy(), label: m.label.clone(), kind: DifferenceKind::AddedToModel { kind: m.kind } })
            }
        },
        (None, Some(d)) => {
            if in_base.is_some() {
                Some(Difference { id: id.copy(), label: d.label.clone(), kind: DifferenceKind::RemovedFromModel })
            } else {
                Some(Difference { id: id.copy(), label: d.label.clone(), kind: DifferenceKind::AddedToDiagram })
            }
        },
        (None, None) => None,
    }
}

/// Adds the ids of these elements to a strictly increasing list.
fn add_model_ids(all: &mut Vec<Id>, model: &Vec<ModelElement>)
    requires
        strictly_sorted(ids_view(old(all)@)),
    ensures
        strictly_sorted(ids_view(final(all)@)),
        ids_view(final(all)@).to_set() == ids_view(old(all)@).to_set() + model_ids(model_view(model@)).to_set(),
{
    let ghost start = ids_view(all@).to_set();
    let mut i: usize = 0;
    while i < model.len()
        invariant
            i <= model.len(),
            strictly_sorted(ids_view(all@)),
            ids_view(all@).to_set() == start + model_ids(model_view(model@)).take(i as int).to_set(),
        decreases model.len() - i,
    {
        insert_sorted_unique(all, &model[i].id);
        proof {
            let ids = model_ids(model_view(model@));
            assert(ids.take(i + 1) =~= ids.take(i as int).push(ids[i as int]));
            ids.take(i as int).lemma_push_to_set_commute(ids[i as int]);
            assert(ids_view(all@).to_set() =~= start + ids.take(i + 1).to_set());
        }
        i += 1;
    }
    assert(model_ids(model_view(model@)).take(i as int) =~= model_ids(model_view(model@)));
}

/// Adds the ids of these shapes to a strictly increasing list.
fn add_diagram_ids(all: &mut Vec<Id>, d: &Vec<DiagramElement>)
    requires
        strictly_sorted(ids_view(old(all)@)),
    ensures
        strictly_sorted(ids_view(final(all)@)),
        ids_view(final(all)@).to_set() == ids_view(old(all)@).to_set() + diagram_ids(diagram_view(d@)).to_set(),
{
    let ghost start = ids_view(all@).to_set();
    let mut i: usize = 0;
    while i < d.len()
        invariant
            i <= d.len(),
            strictly_sorted(ids_view(all@)),
            ids_view(all@).to_set() == start + diagram_ids(diagram_view(d@)).take(i as int).to_set(),
        decreases d.len() - i,
    {
        insert_sorted_unique(all, &d[i].id);
        proof {
            let ids = diagram_ids(diagram_view(d@));
            assert(ids.take(i + 1) =~= ids.take(i as int).push(ids[i as int]));
            ids.take(i as int).lemma_push_to_set_commute(ids[i as int]);
            assert(ids_view(all@).to_set() =~= start + ids.take(i + 1).to_set());
        }
        i += 1;
    }
    assert(diagram_ids(diagram_view(d@)).take(i as int) =~= diagram_ids(diagram_view(d@)));
}

/// How far the reconciliation loop has got: after the first `i` ids, `outv` holds the
/// differences of exactly those of them that disagree, in increasing order of id, all
/// below the next id.
#[verifier::opaque]
pub open spec fn progress(m: Seq<ModelElementView>, d: Seq<DiagramElementView>, b: Seq<DiagramElementView>, ids: Seq<Seq<char>>, outv: Seq<DifferenceView>, i: int) -> bool {
    &&& forall|k: int| 0 <= k < outv.len() ==> {
        &&& all_ids(m, d, b).contains(#[trigger] outv[k].id)
        &&& verdict(m, d, b, outv[k].id) == Some(outv[k])
        &&& exists|j: int| 0 <= j < i && ids[j] == outv[k].id
    }
    &&& forall|a: int, c: int| 0 <= a < c < outv.len() ==> seq_lt(outv[a].id, outv[c].id)
    &&& forall|j: int| 0 <= j < i && (#[trigger] verdict(m, d, b, ids[j])) is Some
        ==> exists|k: int| 0 <= k < outv.len() && outv[k].id == ids[j]
    &&& forall|k: int| 0 <= k < outv.len() ==> (i < ids.len() ==> seq_lt(#[trigger] outv[k].id, ids[i]))
}

proof fn lemma_progress_step(m: Seq<ModelElementView>, d: Seq<DiagramElementView>, b: Seq<DiagramElementView>, ids: Seq<Seq<char>>, before: Seq<DifferenceView>, after: Seq<DifferenceView>, i: int)
    requires
        0 <= i < ids.len(),
        strictly_sorted(ids),
        ids.to_set() == all_ids(m, d, b),
        progress(m, d, b, ids, before, i),
        after == (match verdict(m, d, b, ids[i]) {
            Some(x) => before.push(x),
            None => before,
        }),
    ensures
        progress(m, d, b, ids, after, i + 1),
{
    reveal(progress);
    assert(ids.to_set().contains(ids[i]));
    match verdict(m, d, b, ids[i]) {
        Some(x) => {
            assert(x.id == ids[i]) by {
                lemma_verdict_id(m, d, b, ids[i]);
            }
        },
        None => {},
    }
    assert forall|k: int| 0 <= k < after.len() implies (i + 1 < ids.len() ==> seq_lt(#[trigger] after[k].id, ids[i + 1])) by {
        if i + 1 < ids.len() {
            if k < before.len() {
                assert(after[k] == before[k]);
                assert(seq_lt(before[k].id, ids[i]));
                lemma_lt_transitive(before[k].id, ids[i], ids[i + 1]);
            } else {
                assert(after[k].id == ids[i]);
            }
        }
    }
    assert forall|k: int| 0 <= k < after.len() implies {
        &&& all_ids(m, d, b).contains(#[trigger] after[k].id)
        &&& verdict(m, d, b, after[k].id) == Some(after[k])
        &&& exists|j: int| 0 <= j < i + 1 && ids[j] == after[k].id
    } by {
        if k < before.len() {
            assert(after[k] == before[k]);
            let j0 = choose|j: int| 0 <= j < i && ids[j] == before[k].id;
            assert(0 <= j0 < i + 1 && ids[j0] == after[k].id);
        } else {
            assert(ids[i] == after[k].id);
        }
    }
    assert forall|a: int, c: int| 0 <= a < c < after.len() implies seq_lt(after[a].id, after[c].id) by {
        if c < before.len() {
            assert(after[a] == before[a] && after[c] == before[c]);
        } else {
            assert(after[a] == before[a]);
        }
    }
    assert forall|j: int| 0 <= j < i + 1 && (#[trigger] verdict(m, d, b, ids[j])) is Some
        implies exists|k: int| 0 <= k < after.len() && after[k].id == ids[j] by {
        if j < i {
            let k0 = choose|k: int| 0 <= k < before.len() && before[k].id == ids[j];
            assert(after[k0] == before[k0]);
        } else {
            assert(after[before.len() as int].id == ids[j]);
        }
    }
}

/// The verdict on an id speaks of that id.
proof fn lemma_verdict_id(m: Seq<ModelElementView>, d: Seq<DiagramElementView>, b: Seq<DiagramElementView>, id: Seq<char>)
    ensures
        match verdict(m, d, b, id) {
            Some(x) => x.id == id,
            None => true,
        },
{
}

/// The three-way comparison of model, diagram and base.
///
/// One difference per id that disagrees, in increasing order of id; the verdict on each
/// id is [`verdict`].
pub fn reconcile(model: &Vec<ModelElement>, diagram: &Vec<DiagramElement>, base: &SyncSnapshot) -> (r: Vec<Difference>)
    ensures
        strictly_sorted(diffs_view(r@).map_values(|x: DifferenceView| x.id)),
        forall|i: int| 0 <= i < r@.len() ==> {
            let x = #[trigger] r@[i]@;
            &&& all_ids(model_view(model@), diagram_view(diagram@), diagram_view(base.elements@)).contains(x.id)
            &&& verdict(model_view(model@), diagram_view(diagram@), diagram_view(base.elements@), x.id) == Some(x)
        },
        forall|id: Seq<char>|
            #![trigger all_ids(model_view(model@), diagram_view(diagram@), diagram_view(base.elements@)).contains(id)]
            all_ids(model_view(model@), diagram_view(diagram@), diagram_view(base.elements@)).contains(id)
                && verdict(model_view(model@), diagram_view(diagram@), diagram_view(base.elements@), id) is Some
                ==> exists|i: int| 0 <= i < r@.len() && (#[trigger] r@[i]@).id == id,
{
    let ghost m = model_view(model@);
    let ghost d = diagram_view(diagram@);
    let ghost b = diagram_view(base.elements@);
    let mut all: Vec<Id> = Vec::new();
    add_model_ids(&mut all, model);
    add_diagram_ids(&mut all, diagram);
    add_diagram_ids(&mut all, &base.elements);
    proof {
        assert(ids_view(all@).to_set() =~= all_ids(m, d, b));
    }
    let mut out: Vec<Difference> = Vec::new();
    let mut i: usize = 0;
    proof {
        reveal(progress);
    }
    while i < all.len()
        invariant
            i <= all.len(),
            m == model_view(model@),
            d == diagram_view(diagram@),
            b == diagram_view(base.elements@),
            strictly_sorted(ids_view(all@)),
            ids_view(all@).to_set() == all_ids(m, d, b),
            progress(m, d, b, ids_view(all@), diffs_view(out@), i as int),
        decreases all.len() - i,
    {
        let found = verdict_of(model, diagram, base, &all[i]);
        let ghost before = diffs_view(out@);
        proof {
            assert(ids_view(all@)[i as int] == all@[i as int]@);
        }
        match found {
            Some(x) => {
                out.push(x);
            },
            None => {},
        }
        proof {
            assert(diffs_view(out@) =~= match verdict(m, d, b, ids_view(all@)[i as int]) {
                Some(x) => before.push(x),
                None => before,
            });
            lemma_progress_step(m, d, b, ids_view(all@), before, diffs_view(out@), i as int);
        }
        i += 1;
    }
    proof {
        reveal(progress);
        assert forall|k: int| 0 <= k < out@.len() implies ({
            let x = #[trigger] out@[k]@;
            &&& all_ids(m, d, b).contains(x.id)
            &&& verdict(m, d, b, x.id) == Some(x)
        }) by {
            assert(diffs_view(out@)[k] == out@[k]@);
        }
        assert forall|a: int, c: int| 0 <= a < c < out@.len() implies seq_lt(out@[a]@.id, out@[c]@.id) by {
            assert(diffs_view(out@)[a] == out@[a]@);
            assert(diffs_view(out@)[c] == out@[c]@);
        }
        assert forall|j: int| 0 <= j < i && (#[trigger] verdict(m, d, b, ids_view(all@)[j])) is Some
            implies exists|k: int| 0 <= k < out@.len() && out@[k]@.id == ids_view(all@)[j] by {
            let k = choose|k: int| 0 <= k < diffs_view(out@).len() && diffs_view(out@)[k].id == ids_view(all@)[j];
            assert(diffs_view(out@)[k] == out@[k]@);
        }
    }
    proof {
        assert forall|id: Seq<char>|
            all_ids(m, d, b).contains(id) && verdict(m, d, b, id) is Some
            implies exists|k: int| 0 <= k < out@.len() && (#[trigger] out@[k]@).id == id by {
            assert(ids_view(all@).to_set().contains(id));
            let j = choose|j: int| 0 <= j < ids_view(all@).len() && ids_view(all@)[j] == id;
            assert(verdict(m, d, b, ids_view(all@)[j]) is Some);
        }
        let ids = diffs_view(out@).map_values(|x: DifferenceView| x.id);
        assert forall|a: int, c: int| 0 <= a < c < ids.len() implies seq_lt(ids[a], ids[c]) by {
            assert(ids[a] == out@[a]@.id);
            assert(ids[c] == out@[c]@.id);
        }
    }
    out
}

/// The base after reconciliation: only what both sides agree on (same id, same name),
/// ordered by id (ties keep the model's order).
pub open spec fn agreed(m: Seq<ModelElementView>, d: Seq<DiagramElementView>) -> Seq<DiagramElementView> {
    m.filter(|e: ModelElementView| diagram_entry(d, e.id) matches Some(x) && x.label == e.label).map_values(
        |e: ModelElementView| DiagramElementView { id: e.id, label: e.label },
    )
}

/// `s` with `x` placed after every element whose id is not greater than `x`'s.
pub open spec fn insert_by_id(s: Seq<DiagramElementView>, x: DiagramElementView) -> Seq<DiagramElementView>
    decreases s.len(),
{
    if s.len() == 0 {
        seq![x]
    } else if seq_lt(x.id, s.last().id) {
        insert_by_id(s.drop_last(), x).push(s.last())
    } else {
        s.push(x)
    }
}

/// A stable sort by id (insertion sort).
pub open spec fn sort_by_id(s: Seq<DiagramElementView>) -> Seq<DiagramElementView>
    decreases s.len(),
{
    if s.len() == 0 {
        seq![]
    } else {
        insert_by_id(sort_by_id(s.drop_last()), s.last())
    }
}

/// The base snapshot that a finished reconciliation leaves: the elements both sides
/// agree on, ordered by id.
#[verifier::rlimit(40)]
pub fn settled_snapshot(model: &Vec<ModelElement>, diagram: &Vec<DiagramElement>) -> (r: SyncSnapshot)
    ensures
        diagram_view(r.elements@) == sort_by_id(agreed(model_view(model@), diagram_view(diagram@))),
{
    let ghost m = model_view(model@);
    let ghost d = diagram_view(diagram@);
    let ghost pred = |e: ModelElementView| diagram_entry(d, e.id) matches Some(x) && x.label == e.label;
    let ghost mk = |e: ModelElementView| DiagramElementView { id: e.id, label: e.label };
    let mut elements: Vec<DiagramElement> = Vec::new();
    let mut i: usize = 0;
    while i < model.len()
        invariant
            i <= model.len(),
            m == model_view(model@),
            d == diagram_view(diagram@),
            pred == (|e: ModelElementView| diagram_entry(d, e.id) matches Some(x) && x.label == e.label),
            mk == (|e: ModelElementView| DiagramElementView { id: e.id, label: e.label }),
            diagram_view(elements@) == sort_by_id(m.take(i as int).filter(pred).map_values(mk)),
        decreases model.len() - i,
    {
        let found = find_diagram(diagram, &model[i].id);
        proof {
            assert(m.take(i + 1).drop_last() =~= m.take(i as int));
            reveal(Seq::filter);
            assert(m[i as int] == model@[i as int]@);
        }
        match found {
            Some(x) => {
                if x.label == model[i].label {
                    let e = DiagramElement { id: model[i].id.copy(), label: model[i].label.clone() };
                    proof {
                        let f = m.take(i + 1).filter(pred);
                        assert(f == m.take(i as int).filter(pred).push(m[i as int]));
                        assert(f.map_values(mk) =~= m.take(i as int).filter(pred).map_values(mk).push(e@));
                        assert(f.map_values(mk).drop_last() =~= m.take(i as int).filter(pred).map_values(mk));
                    }
                    insert_by_id_exec(&mut elements, e);
                } else {
                    proof {
                        assert(m.take(i + 1).filter(pred) == m.take(i as int).filter(pred));
                    }
                }
            },
            None => {
                proof {
                    assert(m.take(i + 1).filter(pred) == m.take(i as int).filter(pred));
                }
            },
        }
        i += 1;
    }
    proof {
        assert(m.take(i as int) =~= m);
    }
    SyncSnapshot { elements }
}

fn insert_by_id_exec(v: &mut Vec<DiagramElement>, x: DiagramElement)
    ensures
        diagram_view(final(v)@) == insert_by_id(diagram_view(old(v)@), x@),
{
    let ghost s0 = diagram_view(v@);
    let mut i: usize = v.len();
    assert(s0.take(i as int) =~= s0);
    assert(s0.skip(i as int) =~= Seq::<DiagramElementView>::empty());
    while i > 0 && text_lt(x.id.as_str(), v[i - 1].id.as_str())
        invariant
            i <= v@.len(),
            diagram_view(v@) == s0,
            insert_by_id(s0, x@) == insert_by_id(s0.take(i as int), x@) + s0.skip(i as int),
        decreases i,
    {
        proof {
            let t = s0.take(i as int);
            assert(t.last() == s0[i - 1]);
            assert(t.drop_last() =~= s0.take(i - 1));
            assert(s0.skip(i - 1) =~= seq![s0[i - 1]] + s0.skip(i as int));
            assert(insert_by_id(t, x@) == insert_by_id(s0.take(i - 1), x@).push(s0[i - 1]));
            assert(insert_by_id(s0.take(i - 1), x@).push(s0[i - 1]) + s0.skip(i as int)
                =~= insert_by_id(s0.take(i - 1), x@) + s0.skip(i - 1));
        }
        i -= 1;
    }
    v.insert(i, x);
    proof {
        let t = s0.take(i as int);
        if i > 0 {
            assert(t.last() == s0[i - 1]);
            assert(insert_by_id(t, x@) == t.push(x@));
        } else {
            assert(t.len() == 0);
            assert(insert_by_id(t, x@) == seq![x@]);
        }
        assert(diagram_view(v@) =~= t.push(x@) + s0.skip(i as int));
    }
}

/// Everything in one environment that a diagram should be able to show: nodes and their
/// instances (depth first), then infrastructure nodes, external-system landings and
/// connections.
pub open spec fn tree_elements(n: DeploymentNodeView) -> Seq<ModelElementView>
    decreases n,
{
    seq![ModelElementView { id: n.id, kind: ElementKind::DeploymentNode, label: n.slug }]
        + instance_elements(n.instances) + forest_elements(n.children)
}

pub open spec fn instance_elements(s: Seq<crate::environment::ContainerInstanceView>) -> Seq<ModelElementView> {
    s.map_values(|i: crate::environment::ContainerInstanceView| ModelElementView {
        id: i.id,
        kind: ElementKind::ContainerInstance,
        label: i.slug,
    })
}

pub open spec fn infra_elements(s: Seq<crate::environment::InfrastructureNodeView>) -> Seq<ModelElementView> {
    s.map_values(|n: crate::environment::InfrastructureNodeView| ModelElementView {
        id: n.id,
        kind: ElementKind::InfrastructureNode,
        label: n.slug,
    })
}

pub open spec fn system_elements(s: Seq<crate::environment::SoftwareSystemInstanceView>) -> Seq<ModelElementView> {
    s.map_values(|x: crate::environment::SoftwareSystemInstanceView| ModelElementView {
        id: x.id,
        kind: ElementKind::SoftwareSystemInstance,
        label: x.slug,
    })
}

pub open spec fn connection_elements(s: Seq<crate::environment::ConnectionView>) -> Seq<ModelElementView> {
    s.map_values(|c: crate::environment::ConnectionView| ModelElementView {
        id: c.id,
        kind: ElementKind::Connection,
        label: c.purpose,
    })
}

pub open spec fn forest_elements(s: Seq<DeploymentNodeView>) -> Seq<ModelElementView>
    decreases s,
{
    if s.len() == 0 {
        seq![]
    } else {
        forest_elements(s.drop_last()) + tree_elements(s.last())
    }
}

pub open spec fn env_elements(e: EnvironmentView) -> Seq<ModelElementView> {
    forest_elements(e.nodes) + infra_elements(e.infra) + system_elements(e.systems) + connection_elements(e.connections)
}

fn walk(nodes: &Vec<DeploymentNode>, found: &mut Vec<ModelElement>)
    ensures
        model_view(final(found)@) == model_view(old(found)@) + forest_elements(nodes_view(nodes@)),
    decreases nodes,
{
    let ghost start = model_view(found@);
    let mut j: usize = 0;
    while j < nodes.len()
        invariant
            j <= nodes.len(),
            model_view(found@) == start + forest_elements(nodes_view(nodes@).take(j as int)),
        decreases nodes.len() - j,
    {
        let node = &nodes[j];
        let ghost before = model_view(found@);
        let e = ModelElement { id: node.id.copy(), kind: ElementKind::DeploymentNode, label: node.slug.clone() };
        found.push(e);
        let mut k: usize = 0;
        while k < node.instances.len()
            invariant
                k <= node.instances.len(),
                model_view(found@) == before + seq![e@] + instance_elements(node@.instances.take(k as int)),
            decreases node.instances.len() - k,
        {
            let ghost b2 = model_view(found@);
            let x = ModelElement {
                id: node.instances[k].id.copy(),
                kind: ElementKind::ContainerInstance,
                label: node.instances[k].slug.clone(),
            };
            found.push(x);
            proof {
                assert(node@.instances[k as int] == node.instances@[k as int]@);
                assert(model_view(found@) =~= b2.push(x@));
                assert(node@.instances.take(k + 1) =~= node@.instances.take(k as int).push(node@.instances[k as int]));
            }
            k += 1;
        }
        proof {
            lemma_children_view(*node);
            assert(node@.instances.take(k as int) =~= node@.instances);
        }
        walk(&node.children, found);
        proof {
            let s = nodes_view(nodes@);
            assert(s.take(j + 1).drop_last() =~= s.take(j as int));
            assert(s.take(j + 1).last() == node@);
            assert(forest_elements(s.take(j + 1)) == forest_elements(s.take(j as int)) + tree_elements(node@));
            assert(model_view(found@) =~= start + forest_elements(s.take(j + 1)));
        }
        j += 1;
    }
    assert(nodes_view(nodes@).take(j as int) =~= nodes_view(nodes@));
}

/// Every element of an environment that a diagram should be able to show. This is the
/// model's side of a reconciliation.
pub fn model_elements(env: &Environment) -> (r: Vec<ModelElement>)
    ensures
        model_view(r@) == env_elements(env@),
{
    let mut found: Vec<ModelElement> = Vec::new();
    walk(&env.nodes, &mut found);
    let ghost a = model_view(found@);
    let mut i: usize = 0;
    while i < env.infra.len()
        invariant
            i <= env.infra.len(),
            model_view(found@) == a + infra_elements(env@.infra.take(i as int)),
        decreases env.infra.len() - i,
    {
        let ghost b2 = model_view(found@);
        let x = ModelElement { id: env.infra[i].id.copy(), kind: ElementKind::InfrastructureNode, label: env.infra[i].slug.clone() };
        found.push(x);
        proof {
            assert(model_view(found@) =~= b2.push(x@));
            assert(env@.infra.take(i + 1) =~= env@.infra.take(i as int).push(env@.infra[i as int]));
        }
        i += 1;
    }
    assert(env@.infra.take(i as int) =~= env@.infra);
    let ghost a2 = model_view(found@);
    let mut i: usize = 0;
    while i < env.systems.len()
        invariant
            i <= env.systems.len(),
            model_view(found@) == a2 + system_elements(env@.systems.take(i as int)),
        decreases env.systems.len() - i,
    {
        let ghost b2 = model_view(found@);
        let x = ModelElement { id: env.systems[i].id.copy(), kind: ElementKind::SoftwareSystemInstance, label: env.systems[i].slug.clone() };
        found.push(x);
        proof {
            assert(model_view(found@) =~= b2.push(x@));
            assert(env@.systems.take(i + 1) =~= env@.systems.take(i as int).push(env@.systems[i as int]));
        }
        i += 1;
    }
    assert(env@.systems.take(i as int) =~= env@.systems);
    let ghost a3 = model_view(found@);
    let mut i: usize = 0;
    while i < env.connections.len()
        invariant
            i <= env.connections.len(),
            model_view(found@) == a3 + connection_elements(env@.connections.take(i as int)),
        decreases env.connections.len() - i,
    {
        let ghost b2 = model_view(found@);
        let x = ModelElement { id: env.connections[i].id.copy(), kind: ElementKind::Connection, label: env.connections[i].purpose.clone() };
        found.push(x);
        proof {
            assert(model_view(found@) =~= b2.push(x@));
            assert(env@.connections.take(i + 1) =~= env@.connections.take(i as int).push(env@.connections[i as int]));
        }
        i += 1;
    }
    assert(env@.connections.take(i as int) =~= env@.connections);
    found
}

} // verus!
