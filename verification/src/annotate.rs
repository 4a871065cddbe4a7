//! Which model element an unassigned shape of a diagram could stand for.
//!
//! The embedding protocol has no selection event, so the flow runs the other way: the
//! diagram's shapes without an element are listed as a to-do list, and this module
//! says what each could be. Built on [`crate::reconcile::model_elements`]: annotating
//! asks the same question as reconciling ("what does the model have?"), and there must
//! be one answer.

use vstd::prelude::*;
use crate::environment::Environment;
use crate::id::Id;
use crate::order::{seq_lt, text_lt};
use crate::pattern::chars_of;
use crate::reconcile::{ElementKind, ModelElementView, env_elements, model_elements, model_view};
use crate::slug::{slug_of, slugify};

verus! {

/// A shape of the diagram with no element id, as read from the drawing.
#[derive(Debug, Clone, PartialEq, Eq)]
pub struct UnboundShape {
    /// The cell id in the drawing: what an assignment changes, so its only identity.
    pub cell: String,
    /// The text on the shape; it may be empty (a decoration), and still counts.
    pub label: String,
    /// Whether it is a line. Lines are assigned to connections, boxes to elements.
    pub edge: bool,
}

pub struct UnboundShapeView {
    pub cell: Seq<char>,
    pub label: Seq<char>,
    pub edge: bool,
}

impl View for UnboundShape {
    type V = UnboundShapeView;

    open spec fn view(&self) -> UnboundShapeView {
        UnboundShapeView { cell: self.cell@, label: self.label@, edge: self.edge }
    }
}

/// A model element a shape can be assigned to.
#[derive(Debug, Clone, PartialEq, Eq)]
pub struct Target {
    pub id: Id,
    pub kind: ElementKind,
    pub label: String,
}

pub type TargetView = ModelElementView;

impl View for Target {
    type V = ModelElementView;

    open spec fn view(&self) -> ModelElementView {
        ModelElementView { id: self.id@, kind: self.kind, label: self.label@ }
    }
}

/// "This shape looks like that element": only a suggestion, never applied by itself.
#[derive(Debug, Clone, PartialEq, Eq)]
pub struct Guess {
    pub cell: String,
    pub target: Id,
}

pub struct GuessView {
    pub cell: Seq<char>,
    pub target: Seq<char>,
}

impl View for Guess {
    type V = GuessView;

    open spec fn view(&self) -> GuessView {
        GuessView { cell: self.cell@, target: self.target@ }
    }
}

/// Everything one annotation needs.
#[derive(Debug, Clone, PartialEq, Eq)]
pub struct Annotation {
    /// What a box can be assigned to.
    pub shapes: Vec<Target>,
    /// What a line can be assigned to.
    pub connections: Vec<Target>,
    /// The shapes that can be guessed, sorted by cell.
    pub guesses: Vec<Guess>,
}

impl Default for Annotation {
    fn default() -> (r: Annotation)
        ensures
            r.shapes@.len() == 0 && r.connections@.len() == 0 && r.guesses@.len() == 0,
    {
        Annotation { shapes: Vec::new(), connections: Vec::new(), guesses: Vec::new() }
    }
}

pub open spec fn targets_view(s: Seq<Target>) -> Seq<ModelElementView> {
    s.map_values(|t: Target| t@)
}

pub open spec fn guesses_view(s: Seq<Guess>) -> Seq<GuessView> {
    s.map_values(|g: Guess| g@)
}

pub open spec fn shapes_view(s: Seq<UnboundShape>) -> Seq<UnboundShapeView> {
    s.map_values(|x: UnboundShape| x@)
}

pub open spec fn ids_of(s: Seq<Id>) -> Seq<Seq<char>> {
    s.map_values(|i: Id| i@)
}

// ---- matching names ----

/// Whether `needle` occurs in `hay` as a run of characters.
pub open spec fn occurs_in(needle: Seq<char>, hay: Seq<char>) -> bool {
    exists|i: int| 0 <= i && i + needle.len() <= hay.len() && #[trigger] hay.subrange(i, i + needle.len()) == needle
}

/// Whether the shorter of two names (as slugs) lies inside the longer. One character
/// is too short: such a name occurs in too many others to mean anything.
pub open spec fn overlaps_spec(label: Seq<char>, target: Seq<char>) -> bool {
    let a = slug_of(label);
    let b = slug_of(target);
    let short = if a.len() <= b.len() {
        a
    } else {
        b
    };
    short.len() >= 2 && (occurs_in(b, a) || occurs_in(a, b))
}

/// Whether a shape's text names a target: the same slug in the exact round, one
/// inside the other in the partial round.
pub open spec fn names(exact: bool, label: Seq<char>, target: Seq<char>) -> bool {
    if exact {
        slug_of(label) == slug_of(target)
    } else {
        overlaps_spec(label, target)
    }
}

/// The pairs (cell, target id) of one round, over the shapes and targets not used yet.
pub open spec fn shape_pairs(s: UnboundShapeView, targets: Seq<ModelElementView>, used_ids: Seq<Seq<char>>, exact: bool) -> Seq<(Seq<char>, Seq<char>)>
    decreases targets.len(),
{
    if targets.len() == 0 {
        seq![]
    } else {
        let t = targets.last();
        let rest = shape_pairs(s, targets.drop_last(), used_ids, exact);
        if !used_ids.contains(t.id) && names(exact, s.label, t.label) {
            rest.push((s.cell, t.id))
        } else {
            rest
        }
    }
}

pub open spec fn round_pairs(cands: Seq<UnboundShapeView>, targets: Seq<ModelElementView>, used_cells: Seq<Seq<char>>, used_ids: Seq<Seq<char>>, exact: bool) -> Seq<(Seq<char>, Seq<char>)>
    decreases cands.len(),
{
    if cands.len() == 0 {
        seq![]
    } else {
        let s = cands.last();
        let rest = round_pairs(cands.drop_last(), targets, used_cells, used_ids, exact);
        if used_cells.contains(s.cell) {
            rest
        } else {
            rest + shape_pairs(s, targets, used_ids, exact)
        }
    }
}

pub open spec fn with_cell(cell: Seq<char>) -> spec_fn((Seq<char>, Seq<char>)) -> bool {
    |p: (Seq<char>, Seq<char>)| p.0 == cell
}

pub open spec fn with_target(id: Seq<char>) -> spec_fn((Seq<char>, Seq<char>)) -> bool {
    |p: (Seq<char>, Seq<char>)| p.1 == id
}

/// The target a cell is guessed to be in a round: only when the cell names exactly one
/// target and that target is named by exactly that one cell.
pub open spec fn picked(pairs: Seq<(Seq<char>, Seq<char>)>, cell: Seq<char>) -> Option<Seq<char>> {
    let mine = pairs.filter(with_cell(cell));
    if mine.len() == 1 && pairs.filter(with_target(mine[0].1)).len() == 1 {
        Some(mine[0].1)
    } else {
        None
    }
}

/// `x` put into a strictly increasing list of texts, unless it is there already.
pub open spec fn insert_text(s: Seq<Seq<char>>, x: Seq<char>) -> Seq<Seq<char>>
    decreases s.len(),
{
    if s.len() == 0 {
        seq![x]
    } else if s.last() == x {
        s
    } else if seq_lt(x, s.last()) {
        insert_text(s.drop_last(), x).push(s.last())
    } else {
        s.push(x)
    }
}

/// The distinct cells of the pairs, in increasing order.
pub open spec fn cells_in_order(pairs: Seq<(Seq<char>, Seq<char>)>) -> Seq<Seq<char>>
    decreases pairs.len(),
{
    if pairs.len() == 0 {
        seq![]
    } else {
        insert_text(cells_in_order(pairs.drop_last()), pairs.last().0)
    }
}

pub open spec fn guesses_for(pairs: Seq<(Seq<char>, Seq<char>)>, cells: Seq<Seq<char>>) -> Seq<GuessView>
    decreases cells.len(),
{
    if cells.len() == 0 {
        seq![]
    } else {
        let rest = guesses_for(pairs, cells.drop_last());
        match picked(pairs, cells.last()) {
            Some(id) => rest.push(GuessView { cell: cells.last(), target: id }),
            None => rest,
        }
    }
}

/// The guesses of one round, by cell.
pub open spec fn round_guesses(pairs: Seq<(Seq<char>, Seq<char>)>) -> Seq<GuessView> {
    guesses_for(pairs, cells_in_order(pairs))
}

pub open spec fn guess_cells(g: Seq<GuessView>) -> Seq<Seq<char>> {
    g.map_values(|x: GuessView| x.cell)
}

pub open spec fn guess_targets(g: Seq<GuessView>) -> Seq<Seq<char>> {
    g.map_values(|x: GuessView| x.target)
}

/// The shapes that take part: lines or boxes as asked, and only those with text.
pub open spec fn candidates(shapes: Seq<UnboundShapeView>, edges: bool) -> Seq<UnboundShapeView> {
    shapes.filter(|s: UnboundShapeView| s.edge == edges && slug_of(s.label).len() > 0)
}

/// The guesses for shapes of one kind: first exact names, then, among what is left,
/// one name inside the other. The other order would let `redis-01` take the box named
/// `redis` before the one truly named so is seen.
pub open spec fn guess_spec(shapes: Seq<UnboundShapeView>, targets: Seq<ModelElementView>, edges: bool) -> Seq<GuessView> {
    let cands = candidates(shapes, edges);
    let first = round_guesses(round_pairs(cands, targets, seq![], seq![], true));
    let second = round_guesses(round_pairs(cands, targets, guess_cells(first), guess_targets(first), false));
    first + second
}

/// `x` put after every guess whose cell is not after its own (a stable insertion).
pub open spec fn insert_by_cell(s: Seq<GuessView>, x: GuessView) -> Seq<GuessView>
    decreases s.len(),
{
    if s.len() == 0 {
        seq![x]
    } else if seq_lt(x.cell, s.last().cell) {
        insert_by_cell(s.drop_last(), x).push(s.last())
    } else {
        s.push(x)
    }
}

pub open spec fn sort_by_cell(s: Seq<GuessView>) -> Seq<GuessView>
    decreases s.len(),
{
    if s.len() == 0 {
        seq![]
    } else {
        insert_by_cell(sort_by_cell(s.drop_last()), s.last())
    }
}

pub open spec fn unbound(bound: Seq<Seq<char>>) -> spec_fn(ModelElementView) -> bool {
    |e: ModelElementView| !bound.contains(e.id)
}

pub open spec fn is_connection(e: ModelElementView) -> bool {
    e.kind == ElementKind::Connection
}

/// Boxes: the environment's elements that are not connections and not assigned yet,
/// in the order of the model (sites, machines, instances, ...).
pub open spec fn box_targets(env: crate::environment::EnvironmentView, bound: Seq<Seq<char>>) -> Seq<ModelElementView> {
    env_elements(env).filter(unbound(bound)).filter(|e: ModelElementView| !is_connection(e))
}

/// Lines: the connections not assigned yet.
pub open spec fn line_targets(env: crate::environment::EnvironmentView, bound: Seq<Seq<char>>) -> Seq<ModelElementView> {
    env_elements(env).filter(unbound(bound)).filter(|e: ModelElementView| is_connection(e))
}

// ---- the computation ----

fn occurs(needle: &Vec<char>, hay: &Vec<char>) -> (r: bool)
    ensures
        r == occurs_in(needle@, hay@),
{
    if needle.len() > hay.len() {
        return false;
    }
    let hl = hay.len();
    let last = hl - needle.len();
    let mut i: usize = 0;
    while i <= last
        invariant
            needle@.len() <= hay@.len(),
            hl == hay@.len(),
            last == hay@.len() - needle@.len(),
            i <= last + 1,
            forall|k: int| 0 <= k < i ==> #[trigger] hay@.subrange(k, k + needle@.len()) != needle@,
        decreases last + 1 - i,
    {
        let mut j: usize = 0;
        let mut same = true;
        while j < needle.len()
            invariant
                i <= last,
                last == hay@.len() - needle@.len(),
                i + needle@.len() <= hay@.len(),
                hl == hay@.len(),
                j <= needle@.len(),
                same == (forall|m: int| 0 <= m < j ==> hay@[i + m] == needle@[m]),
            decreases needle.len() - j,
        {
            if hay[i + j] != needle[j] {
                same = false;
            }
            j += 1;
        }
        if same {
            assert(hay@.subrange(i as int, i + needle@.len()) =~= needle@);
            return true;
        }
        proof {
            let m = choose|m: int| 0 <= m < needle@.len() && hay@[i + m] != needle@[m];
            assert(hay@.subrange(i as int, i + needle@.len())[m] != needle@[m]);
        }
        if i == last {
            proof {
                assert forall|k: int| 0 <= k && k + needle@.len() <= hay@.len() implies #[trigger] hay@.subrange(k, k + needle@.len()) != needle@ by {
                    assert(k <= i);
                }
            }
            return false;
        }
        i += 1;
    }
    proof {
        assert forall|k: int| 0 <= k && k + needle@.len() <= hay@.len() implies #[trigger] hay@.subrange(k, k + needle@.len()) != needle@ by {
            assert(k < i);
        }
    }
    false
}

fn overlaps(label: &str, target: &str) -> (r: bool)
    ensures
        r == overlaps_spec(label@, target@),
{
    let a = slugify(label);
    let b = slugify(target);
    let ac = chars_of(a.as_str());
    let bc = chars_of(b.as_str());
    let short = if ac.len() <= bc.len() {
        ac.len()
    } else {
        bc.len()
    };
    if short < 2 {
        return false;
    }
    occurs(&bc, &ac) || occurs(&ac, &bc)
}

fn names_exec(exact: bool, label: &str, target: &str) -> (r: bool)
    ensures
        r == names(exact, label@, target@),
{
    if exact {
        slugify(label) == slugify(target)
    } else {
        overlaps(label, target)
    }
}

pub open spec fn texts_view(s: Seq<String>) -> Seq<Seq<char>> {
    s.map_values(|x: String| x@)
}

pub open spec fn id_texts(s: Seq<Id>) -> Seq<Seq<char>> {
    s.map_values(|x: Id| x@)
}

pub open spec fn pairs_view(s: Seq<(String, Id)>) -> Seq<(Seq<char>, Seq<char>)> {
    s.map_values(|p: (String, Id)| (p.0@, p.1@))
}

fn has_text(v: &Vec<String>, x: &String) -> (r: bool)
    ensures
        r == texts_view(v@).contains(x@),
{
    let mut i: usize = 0;
    while i < v.len()
        invariant
            i <= v@.len(),
            forall|k: int| 0 <= k < i ==> texts_view(v@)[k] != x@,
        decreases v.len() - i,
    {
        if v[i] == *x {
            assert(texts_view(v@)[i as int] == x@);
            return true;
        }
        i += 1;
    }
    false
}

fn has_id(v: &Vec<Id>, x: &Id) -> (r: bool)
    ensures
        r == id_texts(v@).contains(x@),
{
    let mut i: usize = 0;
    while i < v.len()
        invariant
            i <= v@.len(),
            forall|k: int| 0 <= k < i ==> id_texts(v@)[k] != x@,
        decreases v.len() - i,
    {
        if v[i].same(x) {
            assert(id_texts(v@)[i as int] == x@);
            return true;
        }
        i += 1;
    }
    false
}

/// The pairs of one shape with the targets it names.
fn pairs_of_shape(s: &UnboundShape, targets: &Vec<Target>, used_ids: &Vec<Id>, exact: bool, out: &mut Vec<(String, Id)>)
    ensures
        pairs_view(final(out)@) == pairs_view(old(out)@) + shape_pairs(s@, targets_view(targets@), id_texts(used_ids@), exact),
{
    let ghost o0 = pairs_view(out@);
    let ghost ts = targets_view(targets@);
    let mut i: usize = 0;
    while i < targets.len()
        invariant
            i <= targets@.len(),
            ts == targets_view(targets@),
            pairs_view(out@) == o0 + shape_pairs(s@, ts.take(i as int), id_texts(used_ids@), exact),
        decreases targets.len() - i,
    {
        let t = &targets[i];
        proof {
            let c = ts.take(i + 1);
            assert(c.drop_last() =~= ts.take(i as int));
            assert(c.last() == t@);
        }
        if !has_id(used_ids, &t.id) && names_exec(exact, s.label.as_str(), t.label.as_str()) {
            let ghost before = pairs_view(out@);
            out.push((s.cell.clone(), t.id.copy()));
            assert(pairs_view(out@) =~= before.push((s@.cell, t@.id)));
        }
        i += 1;
    }
    assert(ts.take(i as int) =~= ts);
}

fn pairs_of_round(cands: &Vec<UnboundShape>, targets: &Vec<Target>, used_cells: &Vec<String>, used_ids: &Vec<Id>, exact: bool) -> (r: Vec<(String, Id)>)
    ensures
        pairs_view(r@) == round_pairs(shapes_view(cands@), targets_view(targets@), texts_view(used_cells@), id_texts(used_ids@), exact),
{
    let ghost cs = shapes_view(cands@);
    let mut out: Vec<(String, Id)> = Vec::new();
    let mut i: usize = 0;
    while i < cands.len()
        invariant
            i <= cands@.len(),
            cs == shapes_view(cands@),
            pairs_view(out@) == round_pairs(cs.take(i as int), targets_view(targets@), texts_view(used_cells@), id_texts(used_ids@), exact),
        decreases cands.len() - i,
    {
        proof {
            let c = cs.take(i + 1);
            assert(c.drop_last() =~= cs.take(i as int));
            assert(c.last() == cands@[i as int]@);
        }
        if !has_text(used_cells, &cands[i].cell) {
            pairs_of_shape(&cands[i], targets, used_ids, exact, &mut out);
        }
        i += 1;
    }
    assert(cs.take(i as int) =~= cs);
    out
}

/// How many pairs have this cell, and the target of the last one.
fn count_cell(pairs: &Vec<(String, Id)>, cell: &String) -> (r: (usize, Option<Id>))
    ensures
        r.0 == pairs_view(pairs@).filter(with_cell(cell@)).len(),
        r.0 == 1 ==> (r.1 matches Some(t) && t@ == pairs_view(pairs@).filter(with_cell(cell@))[0].1),
{
    let ghost s = pairs_view(pairs@);
    let mut n: usize = 0;
    let mut last: Option<Id> = None;
    let mut i: usize = 0;
    while i < pairs.len()
        invariant
            i <= pairs@.len(),
            s == pairs_view(pairs@),
            n == s.take(i as int).filter(with_cell(cell@)).len(),
            n <= i,
            n >= 1 ==> (last matches Some(t) && t@ == s.take(i as int).filter(with_cell(cell@))[n - 1].1),
        decreases pairs.len() - i,
    {
        proof {
            let c = s.take(i + 1);
            assert(c.drop_last() =~= s.take(i as int));
            reveal(Seq::filter);
            assert(s[i as int] == (pairs@[i as int].0@, pairs@[i as int].1@));
        }
        if pairs[i].0 == *cell {
            n += 1;
            last = Some(pairs[i].1.copy());
        }
        i += 1;
    }
    assert(s.take(i as int) =~= s);
    (n, last)
}

fn count_target(pairs: &Vec<(String, Id)>, id: &Id) -> (r: usize)
    ensures
        r == pairs_view(pairs@).filter(with_target(id@)).len(),
{
    let ghost s = pairs_view(pairs@);
    let mut n: usize = 0;
    let mut i: usize = 0;
    while i < pairs.len()
        invariant
            i <= pairs@.len(),
            s == pairs_view(pairs@),
            n == s.take(i as int).filter(with_target(id@)).len(),
            n <= i,
        decreases pairs.len() - i,
    {
        proof {
            let c = s.take(i + 1);
            assert(c.drop_last() =~= s.take(i as int));
            reveal(Seq::filter);
            assert(s[i as int] == (pairs@[i as int].0@, pairs@[i as int].1@));
        }
        if pairs[i].1.same(id) {
            n += 1;
        }
        i += 1;
    }
    assert(s.take(i as int) =~= s);
    n
}

fn insert_text_exec(v: &mut Vec<String>, x: String)
    ensures
        texts_view(final(v)@) == insert_text(texts_view(old(v)@), x@),
    decreases old(v)@.len(),
{
    if v.len() == 0 {
        v.push(x);
        assert(texts_view(v@) =~= seq![x@]);
        return;
    }
    let ghost s = texts_view(v@);
    let k = v.len() - 1;
    assert(s.last() == v@[k as int]@);
    if v[k] == x {
        return;
    }
    if text_lt(x.as_str(), v[k].as_str()) {
        let last = v.pop().unwrap();
        assert(texts_view(v@) =~= s.drop_last());
        insert_text_exec(v, x);
        let ghost mid = texts_view(v@);
        v.push(last);
        assert(texts_view(v@) =~= mid.push(s.last()));
    } else {
        let ghost xv = x@;
        v.push(x);
        assert(texts_view(v@) =~= s.push(xv));
    }
}

fn cells_of(pairs: &Vec<(String, Id)>) -> (r: Vec<String>)
    ensures
        texts_view(r@) == cells_in_order(pairs_view(pairs@)),
{
    let ghost s = pairs_view(pairs@);
    let mut out: Vec<String> = Vec::new();
    let mut i: usize = 0;
    while i < pairs.len()
        invariant
            i <= pairs@.len(),
            s == pairs_view(pairs@),
            texts_view(out@) == cells_in_order(s.take(i as int)),
        decreases pairs.len() - i,
    {
        proof {
            let c = s.take(i + 1);
            assert(c.drop_last() =~= s.take(i as int));
            assert(c.last().0 == pairs@[i as int].0@);
        }
        insert_text_exec(&mut out, pairs[i].0.clone());
        i += 1;
    }
    assert(s.take(i as int) =~= s);
    out
}

fn guesses_of_round(pairs: &Vec<(String, Id)>) -> (r: Vec<Guess>)
    ensures
        guesses_view(r@) == round_guesses(pairs_view(pairs@)),
{
    let cells = cells_of(pairs);
    let ghost s = pairs_view(pairs@);
    let ghost cs = texts_view(cells@);
    let mut out: Vec<Guess> = Vec::new();
    let mut i: usize = 0;
    while i < cells.len()
        invariant
            i <= cells@.len(),
            s == pairs_view(pairs@),
            cs == texts_view(cells@),
            guesses_view(out@) == guesses_for(s, cs.take(i as int)),
        decreases cells.len() - i,
    {
        proof {
            let c = cs.take(i + 1);
            assert(c.drop_last() =~= cs.take(i as int));
            assert(c.last() == cells@[i as int]@);
        }
        let (n, last) = count_cell(pairs, &cells[i]);
        if n == 1 {
            let t = last.unwrap();
            if count_target(pairs, &t) == 1 {
                let ghost before = guesses_view(out@);
                let g = Guess { cell: cells[i].clone(), target: t };
                let ghost gv = g@;
                out.push(g);
                assert(guesses_view(out@) =~= before.push(gv));
            }
        }
        i += 1;
    }
    assert(cs.take(i as int) =~= cs);
    out
}

fn candidates_of(shapes: &[UnboundShape], edges: bool) -> (r: Vec<UnboundShape>)
    ensures
        shapes_view(r@) == candidates(shapes_view(shapes@), edges),
{
    let ghost s = shapes_view(shapes@);
    let ghost pred = |x: UnboundShapeView| x.edge == edges && slug_of(x.label).len() > 0;
    let mut out: Vec<UnboundShape> = Vec::new();
    let mut i: usize = 0;
    while i < shapes.len()
        invariant
            i <= shapes@.len(),
            s == shapes_view(shapes@),
            pred == (|x: UnboundShapeView| x.edge == edges && slug_of(x.label).len() > 0),
            shapes_view(out@) == s.take(i as int).filter(pred),
        decreases shapes.len() - i,
    {
        proof {
            let c = s.take(i + 1);
            assert(c.drop_last() =~= s.take(i as int));
            reveal(Seq::filter);
            assert(s[i as int] == shapes@[i as int]@);
        }
        let x = &shapes[i];
        let slug = slugify(x.label.as_str());
        if x.edge == edges && !slug.as_str().is_empty() {
            let ghost before = shapes_view(out@);
            out.push(x.clone_shape());
            assert(shapes_view(out@) =~= before.push(x@));
        }
        i += 1;
    }
    assert(s.take(i as int) =~= s);
    out
}

impl UnboundShape {
    fn clone_shape(&self) -> (r: UnboundShape)
        ensures
            r@ == self@,
    {
        UnboundShape { cell: self.cell.clone(), label: self.label.clone(), edge: self.edge }
    }
}

fn guess(shapes: &[UnboundShape], targets: &Vec<Target>, edges: bool) -> (r: Vec<Guess>)
    ensures
        guesses_view(r@) == guess_spec(shapes_view(shapes@), targets_view(targets@), edges),
{
    let cands = candidates_of(shapes, edges);
    let no_cells: Vec<String> = Vec::new();
    let no_ids: Vec<Id> = Vec::new();
    assert(texts_view(no_cells@) =~= Seq::<Seq<char>>::empty());
    assert(id_texts(no_ids@) =~= Seq::<Seq<char>>::empty());
    let first_pairs = pairs_of_round(&cands, targets, &no_cells, &no_ids, true);
    let mut out = guesses_of_round(&first_pairs);
    let mut used_cells: Vec<String> = Vec::new();
    let mut used_ids: Vec<Id> = Vec::new();
    let ghost g1 = guesses_view(out@);
    let mut i: usize = 0;
    while i < out.len()
        invariant
            i <= out@.len(),
            g1 == guesses_view(out@),
            texts_view(used_cells@) == guess_cells(g1).take(i as int),
            id_texts(used_ids@) == guess_targets(g1).take(i as int),
        decreases out.len() - i,
    {
        let ghost c0 = texts_view(used_cells@);
        let ghost t0 = id_texts(used_ids@);
        used_cells.push(out[i].cell.clone());
        used_ids.push(out[i].target.copy());
        proof {
            assert(texts_view(used_cells@) =~= c0.push(g1[i as int].cell));
            assert(id_texts(used_ids@) =~= t0.push(g1[i as int].target));
            assert(guess_cells(g1).take(i + 1) =~= guess_cells(g1).take(i as int).push(g1[i as int].cell));
            assert(guess_targets(g1).take(i + 1) =~= guess_targets(g1).take(i as int).push(g1[i as int].target));
        }
        i += 1;
    }
    assert(guess_cells(g1).take(i as int) =~= guess_cells(g1));
    assert(guess_targets(g1).take(i as int) =~= guess_targets(g1));
    let second_pairs = pairs_of_round(&cands, targets, &used_cells, &used_ids, false);
    let second = guesses_of_round(&second_pairs);
    let ghost g2 = guesses_view(second@);
    let mut j: usize = 0;
    while j < second.len()
        invariant
            j <= second@.len(),
            g2 == guesses_view(second@),
            guesses_view(out@) == g1 + g2.take(j as int),
        decreases second.len() - j,
    {
        let ghost before = guesses_view(out@);
        out.push(Guess { cell: second[j].cell.clone(), target: second[j].target.copy() });
        proof {
            assert(guesses_view(out@) =~= before.push(g2[j as int]));
            assert(g2.take(j + 1) =~= g2.take(j as int).push(g2[j as int]));
        }
        j += 1;
    }
    assert(g2.take(j as int) =~= g2);
    out
}

fn insert_guess(v: &mut Vec<Guess>, x: Guess)
    ensures
        guesses_view(final(v)@) == insert_by_cell(guesses_view(old(v)@), x@),
    decreases old(v)@.len(),
{
    let ghost s = guesses_view(v@);
    if v.len() == 0 {
        v.push(x);
        assert(guesses_view(v@) =~= seq![x@]);
        return;
    }
    let k = v.len() - 1;
    assert(s.last() == v@[k as int]@);
    if text_lt(x.cell.as_str(), v[k].cell.as_str()) {
        let last = v.pop().unwrap();
        assert(guesses_view(v@) =~= s.drop_last());
        insert_guess(v, x);
        let ghost mid = guesses_view(v@);
        v.push(last);
        assert(guesses_view(v@) =~= mid.push(s.last()));
    } else {
        let ghost xv = x@;
        v.push(x);
        assert(guesses_view(v@) =~= s.push(xv));
    }
}

fn sorted_by_cell(v: Vec<Guess>) -> (r: Vec<Guess>)
    ensures
        guesses_view(r@) == sort_by_cell(guesses_view(v@)),
{
    let ghost s = guesses_view(v@);
    let mut out: Vec<Guess> = Vec::new();
    let mut i: usize = 0;
    while i < v.len()
        invariant
            i <= v@.len(),
            s == guesses_view(v@),
            guesses_view(out@) == sort_by_cell(s.take(i as int)),
        decreases v.len() - i,
    {
        proof {
            let c = s.take(i + 1);
            assert(c.drop_last() =~= s.take(i as int));
            assert(c.last() == v@[i as int]@);
        }
        insert_guess(&mut out, Guess { cell: v[i].cell.clone(), target: v[i].target.copy() });
        i += 1;
    }
    assert(s.take(i as int) =~= s);
    out
}

/// What the diagram's unassigned shapes could be assigned to. Elements already bound to
/// a shape (`bound`) leave the lists: a reconciliation matches sets, and one element on
/// two shapes would never match. Lines go to connections and boxes to the rest, so a
/// box can never be made into a connection. Guesses are made only where one shape and
/// one element name each other alone: a wrong guess is pressed and never checked again.
pub fn annotate(env: &Environment, bound: &[Id], shapes: &[UnboundShape]) -> (r: Annotation)
    ensures
        targets_view(r.shapes@) == box_targets(env@, ids_of(bound@)),
        targets_view(r.connections@) == line_targets(env@, ids_of(bound@)),
        guesses_view(r.guesses@) == sort_by_cell(
            guess_spec(shapes_view(shapes@), box_targets(env@, ids_of(bound@)), false)
                + guess_spec(shapes_view(shapes@), line_targets(env@, ids_of(bound@)), true),
        ),
{
    let elements = model_elements(env);
    let ghost all = model_view(elements@);
    let ghost free = all.filter(unbound(ids_of(bound@)));
    let ghost box_pred = |e: ModelElementView| !is_connection(e);
    let ghost line_pred = |e: ModelElementView| is_connection(e);
    let mut boxes: Vec<Target> = Vec::new();
    let mut connections: Vec<Target> = Vec::new();
    let mut i: usize = 0;
    while i < elements.len()
        invariant
            i <= elements@.len(),
            all == model_view(elements@),
            all == env_elements(env@),
            free == all.filter(unbound(ids_of(bound@))),
            box_pred == (|e: ModelElementView| !is_connection(e)),
            line_pred == (|e: ModelElementView| is_connection(e)),
            targets_view(boxes@) == all.take(i as int).filter(unbound(ids_of(bound@))).filter(box_pred),
            targets_view(connections@) == all.take(i as int).filter(unbound(ids_of(bound@))).filter(line_pred),
        decreases elements.len() - i,
    {
        let ghost b0 = targets_view(boxes@);
        let ghost c0 = targets_view(connections@);
        proof {
            let c = all.take(i + 1);
            assert(c.drop_last() =~= all.take(i as int));
            reveal(Seq::filter);
            assert(all[i as int] == elements@[i as int]@);
            assert(c.filter(unbound(ids_of(bound@))) == if (unbound(ids_of(bound@)))(all[i as int]) {
                all.take(i as int).filter(unbound(ids_of(bound@))).push(all[i as int])
            } else {
                all.take(i as int).filter(unbound(ids_of(bound@)))
            });
        }
        proof {
            let f = all.take(i as int).filter(unbound(ids_of(bound@)));
            f.lemma_filter_push(all[i as int], box_pred);
            f.lemma_filter_push(all[i as int], line_pred);
        }
        let e = &elements[i];
        let mut taken = false;
        let mut k: usize = 0;
        while k < bound.len()
            invariant
                k <= bound@.len(),
                taken == ids_of(bound@).take(k as int).contains(e.id@),
            decreases bound.len() - k,
        {
            let ghost before = ids_of(bound@).take(k as int);
            proof {
                assert(ids_of(bound@).take(k + 1) =~= before.push(bound@[k as int]@));
            }
            if bound[k].same(&e.id) {
                taken = true;
            }
            proof {
                let after = before.push(bound@[k as int]@);
                if after.contains(e.id@) {
                    let w = choose|w: int| 0 <= w < after.len() && after[w] == e.id@;
                    if w < before.len() {
                        assert(before[w] == e.id@);
                    }
                }
                if before.contains(e.id@) {
                    let w = choose|w: int| 0 <= w < before.len() && before[w] == e.id@;
                    assert(after[w] == e.id@);
                }
                if bound@[k as int]@ == e.id@ {
                    assert(after[k as int] == e.id@);
                }
            }
            k += 1;
        }
        assert(ids_of(bound@).take(k as int) =~= ids_of(bound@));
        if !taken {
            let t = Target { id: e.id.copy(), kind: e.kind, label: e.label.clone() };
            let ghost tv = t@;
            if e.kind == ElementKind::Connection {
                connections.push(t);
                assert(targets_view(connections@) =~= c0.push(tv));
            } else {
                boxes.push(t);
                assert(targets_view(boxes@) =~= b0.push(tv));
            }
        }
        i += 1;
    }
    assert(all.take(i as int) =~= all);
    let g1 = guess(shapes, &boxes, false);
    let g2 = guess(shapes, &connections, true);
    let mut all_guesses = g1;
    let ghost a1 = guesses_view(all_guesses@);
    let ghost b2 = guesses_view(g2@);
    let mut j: usize = 0;
    while j < g2.len()
        invariant
            j <= g2@.len(),
            b2 == guesses_view(g2@),
            guesses_view(all_guesses@) == a1 + b2.take(j as int),
        decreases g2.len() - j,
    {
        let ghost before = guesses_view(all_guesses@);
        all_guesses.push(Guess { cell: g2[j].cell.clone(), target: g2[j].target.copy() });
        proof {
            assert(guesses_view(all_guesses@) =~= before.push(b2[j as int]));
            assert(b2.take(j + 1) =~= b2.take(j as int).push(b2[j as int]));
        }
        j += 1;
    }
    assert(b2.take(j as int) =~= b2);
    let guesses = sorted_by_cell(all_guesses);
    Annotation { shapes: boxes, connections, guesses }
}

} // verus!