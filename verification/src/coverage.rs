//! The coverage matrix: every relationship against every environment, whether that
//! cell is realised.
//!
//! A flat list of connections shows what is there; what is missing is not on it. The
//! matrix draws "every environment realises every relationship" as a grid, so an empty
//! cell is a hole. It decides nothing of its own: a cell's status comes from lint's
//! findings, and the only things counted here are numbers (segments, targets).

use vstd::prelude::*;
use crate::{Project, ProjectView, environment_ids};
use crate::edit::connection_ids;
use crate::environment::{Connection, ConnectionView, Endpointing, EndpointingView, Environment, EnvironmentView,
    InstanceRef, InstanceRefView};
use crate::id::Id;
use crate::index::{EnvIndex, matching, serving_spec};
use crate::lint::{Finding, Rule, Severity, findings_view, lint, lint_raw};
use crate::logical::{first_index, lemma_first_index, lemma_first_index_unique, relationship_ids};
use crate::order::ids_view;
use crate::reconcile::{last_index, lemma_last_index, lemma_last_index_unique};
use crate::table::{all_rules, all_rules_vec, worst, worst_of};

verus! {

/// The state of one cell, from best to worst.
#[derive(Debug, Clone, Copy, PartialEq, Eq, Structural)]
pub enum Status {
    /// No problem at all.
    Realized,
    /// Warnings, but the way through is there.
    Warning,
    /// Errors, though at least a connection was drawn (unreachable, wrong count).
    Broken,
    /// The environment does not realise the relationship at all: the cell users fear.
    Missing,
}

/// One cell of the matrix.
#[derive(Debug, Clone, PartialEq, Eq)]
pub struct Cell {
    pub relationship: Id,
    pub environment: Id,
    pub status: Status,
    /// How many actual connections realise the relationship here (one direct, two
    /// through an F5).
    pub segments: u32,
    /// How many instances the last segment's target reaches; a wildcard reaches a group.
    pub targets: u32,
    /// The count the target's wildcard expects; `None` without a wildcard or without one given.
    pub expect: Option<u32>,
    /// The lint rules raised on this cell, in rule order.
    pub rules: Vec<Rule>,
}

pub struct CellView {
    pub relationship: Seq<char>,
    pub environment: Seq<char>,
    pub status: Status,
    pub segments: u32,
    pub targets: u32,
    pub expect: Option<u32>,
    pub rules: Seq<Rule>,
}

impl View for Cell {
    type V = CellView;

    open spec fn view(&self) -> CellView {
        CellView {
            relationship: self.relationship@,
            environment: self.environment@,
            status: self.status,
            segments: self.segments,
            targets: self.targets,
            expect: self.expect,
            rules: self.rules@,
        }
    }
}

/// The whole matrix: relationships are its rows, environments its columns.
#[derive(Debug, Clone, PartialEq, Eq)]
pub struct Matrix {
    /// The rows, in the order of the project's relationships.
    pub relationships: Vec<Id>,
    /// The columns, in the order of the project's environments.
    pub environments: Vec<Id>,
    /// One cell per pair, row by row.
    pub cells: Vec<Cell>,
}

pub struct MatrixView {
    pub relationships: Seq<Seq<char>>,
    pub environments: Seq<Seq<char>>,
    pub cells: Seq<CellView>,
}

pub open spec fn cells_view(s: Seq<Cell>) -> Seq<CellView> {
    s.map_values(|c: Cell| c@)
}

impl View for Matrix {
    type V = MatrixView;

    open spec fn view(&self) -> MatrixView {
        MatrixView {
            relationships: ids_view(self.relationships@),
            environments: ids_view(self.environments@),
            cells: cells_view(self.cells@),
        }
    }
}

/// The relationship a finding is counted under: a finding on a connection goes to the
/// relationship the connection serves (the last connection with that id, as a map
/// built from the list keeps), any other finding to its own subject.
pub open spec fn bucket(e: EnvironmentView, subject: Seq<char>) -> Seq<char> {
    match last_index(connection_ids(e.connections), subject) {
        Some(k) => e.connections[k].serves,
        None => subject,
    }
}

/// Whether lint raises the rule in this environment on something counted under the relationship.
pub open spec fn cell_flagged(p: ProjectView, e: EnvironmentView, relationship: Seq<char>, r: Rule) -> bool {
    exists|k: int| 0 <= k < lint_raw(p).len() && {
        let f = #[trigger] lint_raw(p)[k];
        f.environment == Some(e.id) && f.rule == r && bucket(e, f.subject) == relationship
    }
}

pub open spec fn cell_flagged_fn(p: ProjectView, e: EnvironmentView, relationship: Seq<char>) -> spec_fn(Rule) -> bool {
    |r: Rule| cell_flagged(p, e, relationship, r)
}

/// The rules of one cell, each once, in rule order.
pub open spec fn cell_rules(p: ProjectView, e: EnvironmentView, relationship: Seq<char>) -> Seq<Rule> {
    all_rules().filter(cell_flagged_fn(p, e, relationship))
}

/// A cell with no connection is missing; otherwise its worst rule decides.
pub open spec fn status_of(no_connection: bool, rules: Seq<Rule>) -> Status {
    if no_connection {
        Status::Missing
    } else {
        match worst(rules) {
            Some(Severity::Error) => Status::Broken,
            Some(Severity::Warning) => Status::Warning,
            _ => Status::Realized,
        }
    }
}

/// How many instances an end reaches, and the count it expects.
pub open spec fn target_scale(e: EnvironmentView, to: EndpointingView) -> (u32, Option<u32>) {
    match to {
        EndpointingView::Instance { target: InstanceRefView::Pattern { slug_pattern, within, expect }, .. } => (
            matching(e, slug_pattern, within).len() as u32,
            expect,
        ),
        _ => (1, None),
    }
}

/// The cell of one relationship in one environment.
pub open spec fn cell_spec(p: ProjectView, e: EnvironmentView, relationship: Seq<char>) -> CellView {
    let serving = serving_spec(e, relationship);
    let rules = cell_rules(p, e, relationship);
    let scale = if serving.len() == 0 { (0u32, None) } else { target_scale(e, serving.last().to) };
    CellView {
        relationship,
        environment: e.id,
        status: status_of(serving.len() == 0, rules),
        segments: serving.len() as u32,
        targets: scale.0,
        expect: scale.1,
        rules,
    }
}

/// The cells of one environment, in the order of the relationships.
pub open spec fn env_cells(p: ProjectView, e: EnvironmentView) -> Seq<CellView> {
    relationship_ids(p.logical).map_values(|r: Seq<char>| cell_spec(p, e, r))
}

/// The cells of the environments, one environment after the other.
pub open spec fn all_cells(p: ProjectView, es: Seq<EnvironmentView>) -> Seq<CellView>
    decreases es.len(),
{
    if es.len() == 0 {
        seq![]
    } else {
        all_cells(p, es.drop_last()) + env_cells(p, es.last())
    }
}

/// Row before column: by the place of the first relationship with the cell's id, then
/// by the place of the first environment with it.
pub open spec fn cell_lt(p: ProjectView, a: CellView, b: CellView) -> bool {
    let ra = first_index(relationship_ids(p.logical), a.relationship);
    let rb = first_index(relationship_ids(p.logical), b.relationship);
    let ea = first_index(environment_ids(p), a.environment);
    let eb = first_index(environment_ids(p), b.environment);
    if ra != rb {
        option_lt(ra, rb)
    } else {
        option_lt(ea, eb)
    }
}

/// `None` first, then places in order.
pub open spec fn option_lt(a: Option<int>, b: Option<int>) -> bool {
    match (a, b) {
        (None, Some(_)) => true,
        (Some(x), Some(y)) => x < y,
        _ => false,
    }
}

pub open spec fn insert_cell(p: ProjectView, s: Seq<CellView>, x: CellView) -> Seq<CellView>
    decreases s.len(),
{
    if s.len() == 0 {
        seq![x]
    } else if cell_lt(p, x, s.last()) {
        insert_cell(p, s.drop_last(), x).push(s.last())
    } else {
        s.push(x)
    }
}

/// A stable sort of cells.
pub open spec fn sort_cells(p: ProjectView, s: Seq<CellView>) -> Seq<CellView>
    decreases s.len(),
{
    if s.len() == 0 {
        seq![]
    } else {
        insert_cell(p, sort_cells(p, s.drop_last()), s.last())
    }
}

/// The matrix of a project.
pub open spec fn coverage_spec(p: ProjectView) -> MatrixView {
    MatrixView {
        relationships: relationship_ids(p.logical),
        environments: environment_ids(p),
        cells: sort_cells(p, all_cells(p, p.environments)),
    }
}

impl Matrix {
    /// The cell of this relationship and environment (the first, should the pair repeat).
    pub fn cell(&self, relationship: &Id, environment: &Id) -> (r: Option<&Cell>)
        ensures
            match r {
                Some(c) => exists|k: int| 0 <= k < self.cells@.len() && self.cells@[k] == *c
                    && c.relationship@ == relationship@ && c.environment@ == environment@
                    && forall|j: int| 0 <= j < k ==> !(#[trigger] self.cells@[j].relationship@ == relationship@
                        && self.cells@[j].environment@ == environment@),
                None => forall|j: int| 0 <= j < self.cells@.len() ==> !(#[trigger] self.cells@[j].relationship@ == relationship@
                    && self.cells@[j].environment@ == environment@),
            },
    {
        let mut i: usize = 0;
        while i < self.cells.len()
            invariant
                i <= self.cells@.len(),
                forall|j: int| 0 <= j < i ==> !(#[trigger] self.cells@[j].relationship@ == relationship@
                    && self.cells@[j].environment@ == environment@),
            decreases self.cells.len() - i,
        {
            if self.cells[i].relationship.same(relationship) && self.cells[i].environment.same(environment) {
                return Some(&self.cells[i]);
            }
            i += 1;
        }
        None
    }

    /// The cells not realised at all: what users want to see first.
    pub fn missing(&self) -> (r: Vec<&Cell>)
        ensures
            r@.map_values(|c: &Cell| c@) == cells_view(self.cells@).filter(|c: CellView| c.status == Status::Missing),
    {
        let ghost s = cells_view(self.cells@);
        let ghost pred = |c: CellView| c.status == Status::Missing;
        let mut out: Vec<&Cell> = Vec::new();
        let mut i: usize = 0;
        while i < self.cells.len()
            invariant
                i <= self.cells@.len(),
                s == cells_view(self.cells@),
                pred == (|c: CellView| c.status == Status::Missing),
                out@.map_values(|c: &Cell| c@) == s.take(i as int).filter(pred),
            decreases self.cells.len() - i,
        {
            proof {
                assert(s.take(i + 1).drop_last() =~= s.take(i as int));
                assert(s[i as int] == self.cells@[i as int]@);
                reveal(Seq::filter);
            }
            let ghost before = out@;
            if self.cells[i].status == Status::Missing {
                out.push(&self.cells[i]);
                assert(out@.map_values(|c: &Cell| c@) =~= before.map_values(|c: &Cell| c@).push(s[i as int]));
            }
            i += 1;
        }
        assert(s.take(i as int) =~= s);
        out
    }
}

/// The relationship each finding is counted under in this environment.
fn buckets_of(e: &Environment, findings: &Vec<Finding>) -> (r: Vec<Id>)
    ensures
        r@.len() == findings@.len(),
        forall|k: int| 0 <= k < findings@.len() ==> (#[trigger] r@[k])@ == bucket(e@, findings@[k]@.subject),
{
    let ghost ids = connection_ids(e@.connections);
    let mut out: Vec<Id> = Vec::new();
    let mut k: usize = 0;
    while k < findings.len()
        invariant
            k <= findings@.len(),
            ids == connection_ids(e@.connections),
            out@.len() == k,
            forall|m: int| 0 <= m < k ==> (#[trigger] out@[m])@ == bucket(e@, findings@[m]@.subject),
        decreases findings.len() - k,
    {
        let subject = &findings[k].subject;
        proof {
            lemma_last_index(ids, subject@);
        }
        let mut j: usize = e.connections.len();
        let mut found: Option<usize> = None;
        while j > 0
            invariant_except_break
                found is None,
            invariant
                j <= e.connections@.len(),
                ids == connection_ids(e@.connections),
                forall|m: int| j <= m < ids.len() ==> ids[m] != subject@,
            ensures
                match found {
                    Some(x) => x < ids.len() && ids[x as int] == subject@ && forall|m: int| x < m < ids.len() ==> ids[m] != subject@,
                    None => forall|m: int| 0 <= m < ids.len() ==> ids[m] != subject@,
                },
            decreases j,
        {
            assert(ids[j - 1] == e.connections@[j - 1]@.id);
            if e.connections[j - 1].id.same(subject) {
                found = Some(j - 1);
                break;
            }
            j -= 1;
        }
        let b = match found {
            Some(x) => {
                proof {
                    lemma_last_index_unique(ids, subject@, x as int);
                    assert(e@.connections[x as int] == e.connections@[x as int]@);
                }
                e.connections[x].serves.copy()
            },
            None => subject.copy(),
        };
        out.push(b);
        k += 1;
    }
    out
}

fn counted_under(findings: &Vec<Finding>, buckets: &Vec<Id>, env: &Id, relationship: &Id, rule: Rule) -> (r: bool)
    requires
        buckets@.len() == findings@.len(),
    ensures
        r == (exists|k: int| 0 <= k < findings@.len() && {
            let f = #[trigger] findings@[k]@;
            f.environment == Some(env@) && f.rule == rule && buckets@[k]@ == relationship@
        }),
{
    let mut i: usize = 0;
    while i < findings.len()
        invariant
            i <= findings@.len(),
            buckets@.len() == findings@.len(),
            forall|j: int| 0 <= j < i ==> !({
                let f = #[trigger] findings@[j]@;
                f.environment == Some(env@) && f.rule == rule && buckets@[j]@ == relationship@
            }),
        decreases findings.len() - i,
    {
        let f = &findings[i];
        let env_hit = match &f.environment {
            Some(x) => x.same(env),
            None => false,
        };
        if env_hit && f.rule == rule && buckets[i].same(relationship) {
            assert({
                let g = #[trigger] findings@[i as int]@;
                g.environment == Some(env@) && g.rule == rule && buckets@[i as int]@ == relationship@
            });
            return true;
        }
        i += 1;
    }
    false
}

fn rules_of_cell(p: &Project, e: &Environment, findings: &Vec<Finding>, buckets: &Vec<Id>, relationship: &Id) -> (r: Vec<Rule>)
    requires
        findings_view(findings@).to_set() == lint_raw(p@).to_set(),
        buckets@.len() == findings@.len(),
        forall|k: int| 0 <= k < findings@.len() ==> (#[trigger] buckets@[k])@ == bucket(e@, findings@[k]@.subject),
    ensures
        r@ == cell_rules(p@, e@, relationship@),
{
    let all = all_rules_vec();
    let ghost pr = cell_flagged_fn(p@, e@, relationship@);
    let mut out: Vec<Rule> = Vec::new();
    let mut i: usize = 0;
    while i < all.len()
        invariant
            i <= all@.len(),
            all@ == all_rules(),
            pr == cell_flagged_fn(p@, e@, relationship@),
            findings_view(findings@).to_set() == lint_raw(p@).to_set(),
            buckets@.len() == findings@.len(),
            forall|k: int| 0 <= k < findings@.len() ==> (#[trigger] buckets@[k])@ == bucket(e@, findings@[k]@.subject),
            out@ == all_rules().take(i as int).filter(pr),
        decreases all.len() - i,
    {
        let rule = all[i];
        let hit = counted_under(findings, buckets, &e.id, relationship, rule);
        proof {
            let raw = lint_raw(p@);
            let fs = findings_view(findings@);
            if hit {
                let k = choose|k: int| 0 <= k < findings@.len() && {
                    let f = #[trigger] findings@[k]@;
                    f.environment == Some(e@.id) && f.rule == rule && buckets@[k]@ == relationship@
                };
                assert(fs[k] == findings@[k]@);
                assert(buckets@[k]@ == bucket(e@, findings@[k]@.subject));
                assert(fs.to_set().contains(fs[k]));
                let m = choose|m: int| 0 <= m < raw.len() && raw[m] == fs[k];
                assert(cell_flagged(p@, e@, relationship@, rule));
            } else {
                if cell_flagged(p@, e@, relationship@, rule) {
                    let m = choose|m: int| 0 <= m < raw.len() && {
                        let f = #[trigger] raw[m];
                        f.environment == Some(e@.id) && f.rule == rule && bucket(e@, f.subject) == relationship@
                    };
                    assert(raw.to_set().contains(raw[m]));
                    let k = choose|k: int| 0 <= k < fs.len() && fs[k] == raw[m];
                    assert(fs[k] == findings@[k]@);
                    assert(buckets@[k]@ == bucket(e@, findings@[k]@.subject));
                    assert(false);
                }
            }
            assert(all_rules().take(i + 1).drop_last() =~= all_rules().take(i as int));
            reveal(Seq::filter);
        }
        if hit {
            out.push(rule);
        }
        proof {
            assert(out@ =~= all_rules().take(i + 1).filter(pr));
        }
        i += 1;
    }
    assert(all_rules().take(i as int) =~= all_rules());
    out
}

fn status_from(no_connection: bool, rules: &Vec<Rule>) -> (r: Status)
    ensures
        r == status_of(no_connection, rules@),
{
    if no_connection {
        return Status::Missing;
    }
    match worst_of(rules) {
        Some(Severity::Error) => Status::Broken,
        Some(Severity::Warning) => Status::Warning,
        _ => Status::Realized,
    }
}

fn target_scale_of(index: &EnvIndex, to: &Endpointing) -> (r: (u32, Option<u32>))
    ensures
        r == target_scale(index.env_view(), to@),
{
    match to {
        Endpointing::Instance { target: InstanceRef::Pattern { slug_pattern, within, expect }, .. } => {
            let w = match within {
                Some(n) => Some(n),
                None => None,
            };
            let n = index.matching_within(slug_pattern.as_str(), w).len();
            (n as u32, *expect)
        },
        _ => (1, None),
    }
}

fn cell_of(p: &Project, e: &Environment, index: &EnvIndex, findings: &Vec<Finding>, buckets: &Vec<Id>, relationship: &Id) -> (r: Cell)
    requires
        index.env_view() == e@,
        findings_view(findings@).to_set() == lint_raw(p@).to_set(),
        buckets@.len() == findings@.len(),
        forall|k: int| 0 <= k < findings@.len() ==> (#[trigger] buckets@[k])@ == bucket(e@, findings@[k]@.subject),
    ensures
        r@ == cell_spec(p@, e@, relationship@),
{
    let serving = index.serving(relationship);
    let ghost sv = serving_spec(e@, relationship@);
    assert(serving@.len() == sv.len());
    let rules = rules_of_cell(p, e, findings, buckets, relationship);
    let scale = if serving.len() == 0 {
        (0u32, None)
    } else {
        let last: &Connection = serving[serving.len() - 1];
        assert(last@ == sv.last());
        target_scale_of(index, &last.to)
    };
    let status = status_from(serving.len() == 0, &rules);
    let segments = serving.len() as u32;
    Cell {
        relationship: relationship.copy(),
        environment: e.id.copy(),
        status,
        segments,
        targets: scale.0,
        expect: scale.1,
        rules,
    }
}

fn position_of(ids: &Vec<Id>, id: &Id) -> (r: Option<usize>)
    ensures
        match first_index(ids_view(ids@), id@) {
            Some(k) => r matches Some(x) && x as int == k,
            None => r is None,
        },
{
    let ghost s = ids_view(ids@);
    proof {
        lemma_first_index(s, id@);
    }
    let mut i: usize = 0;
    while i < ids.len()
        invariant
            i <= ids@.len(),
            s == ids_view(ids@),
            forall|j: int| 0 <= j < i ==> s[j] != id@,
        decreases ids.len() - i,
    {
        assert(s[i as int] == ids@[i as int]@);
        if ids[i].same(id) {
            proof {
                lemma_first_index_unique(s, id@, i as int);
            }
            return Some(i);
        }
        i += 1;
    }
    None
}

fn opt_less(a: Option<usize>, b: Option<usize>) -> (r: bool)
    ensures
        r == option_lt(match a {
            Some(x) => Some(x as int),
            None => None,
        }, match b {
            Some(x) => Some(x as int),
            None => None,
        }),
{
    match (a, b) {
        (None, Some(_)) => true,
        (Some(x), Some(y)) => x < y,
        _ => false,
    }
}

fn cell_less(p: &Project, rel_ids: &Vec<Id>, env_ids: &Vec<Id>, a: &Cell, b: &Cell) -> (r: bool)
    requires
        ids_view(rel_ids@) == relationship_ids(p@.logical),
        ids_view(env_ids@) == environment_ids(p@),
    ensures
        r == cell_lt(p@, a@, b@),
{
    let ra = position_of(rel_ids, &a.relationship);
    let rb = position_of(rel_ids, &b.relationship);
    let same_row = match (ra, rb) {
        (None, None) => true,
        (Some(x), Some(y)) => x == y,
        _ => false,
    };
    if !same_row {
        return opt_less(ra, rb);
    }
    let ea = position_of(env_ids, &a.environment);
    let eb = position_of(env_ids, &b.environment);
    opt_less(ea, eb)
}

fn insert_cell_exec(p: &Project, rel_ids: &Vec<Id>, env_ids: &Vec<Id>, v: &mut Vec<Cell>, x: Cell)
    requires
        ids_view(rel_ids@) == relationship_ids(p@.logical),
        ids_view(env_ids@) == environment_ids(p@),
    ensures
        cells_view(final(v)@) == insert_cell(p@, cells_view(old(v)@), x@),
{
    let ghost s0 = cells_view(v@);
    let mut i: usize = v.len();
    assert(s0.take(i as int) =~= s0);
    assert(s0.skip(i as int) =~= Seq::<CellView>::empty());
    while i > 0 && cell_less(p, rel_ids, env_ids, &x, &v[i - 1])
        invariant
            i <= v@.len(),
            cells_view(v@) == s0,
            ids_view(rel_ids@) == relationship_ids(p@.logical),
            ids_view(env_ids@) == environment_ids(p@),
            insert_cell(p@, s0, x@) == insert_cell(p@, s0.take(i as int), x@) + s0.skip(i as int),
        decreases i,
    {
        proof {
            let t = s0.take(i as int);
            assert(t.last() == s0[i - 1]);
            assert(t.drop_last() =~= s0.take(i - 1));
            assert(s0.skip(i - 1) =~= seq![s0[i - 1]] + s0.skip(i as int));
            assert(insert_cell(p@, t, x@) == insert_cell(p@, s0.take(i - 1), x@).push(s0[i - 1]));
            assert(insert_cell(p@, s0.take(i - 1), x@).push(s0[i - 1]) + s0.skip(i as int)
                =~= insert_cell(p@, s0.take(i - 1), x@) + s0.skip(i - 1));
        }
        i -= 1;
    }
    let ghost xv = x@;
    v.insert(i, x);
    proof {
        let t = s0.take(i as int);
        if i > 0 {
            assert(t.last() == s0[i - 1]);
            assert(insert_cell(p@, t, xv) == t.push(xv));
        } else {
            assert(t.len() == 0);
            assert(insert_cell(p@, t, xv) == seq![xv]);
        }
        assert(cells_view(v@) =~= t.push(xv) + s0.skip(i as int));
    }
}

#[verifier::rlimit(30)]
fn sort_cells_exec(p: &Project, rel_ids: &Vec<Id>, env_ids: &Vec<Id>, unsorted: Vec<Cell>, Ghost(all): Ghost<Seq<CellView>>) -> (r: Vec<Cell>)
    requires
        cells_view(unsorted@) == all,
        ids_view(rel_ids@) == relationship_ids(p@.logical),
        ids_view(env_ids@) == environment_ids(p@),
    ensures
        cells_view(r@) == sort_cells(p@, all),
{
    let mut out: Vec<Cell> = Vec::new();
    let mut rest = unsorted;
    let n = rest.len();
    let mut k: usize = 0;
    while rest.len() > 0
        invariant
            all.len() == n,
            k + rest@.len() == all.len(),
            ids_view(rel_ids@) == relationship_ids(p@.logical),
            ids_view(env_ids@) == environment_ids(p@),
            cells_view(rest@) == all.skip(k as int),
            cells_view(out@) == sort_cells(p@, all.take(k as int)),
        decreases rest.len(),
    {
        let ghost before = rest@;
        let x = rest.remove(0);
        proof {
            assert(before[0] == x);
            assert(cells_view(before)[0] == x@);
            assert(all.skip(k as int)[0] == all[k as int]);
            assert(all.take(k + 1).drop_last() =~= all.take(k as int));
            assert(all.take(k + 1).last() == all[k as int]);
            assert(rest@ =~= before.subrange(1, before.len() as int));
            assert(all.skip(k as int).subrange(1, all.skip(k as int).len() as int) =~= all.skip(k + 1));
            assert(cells_view(rest@) =~= all.skip(k + 1));
        }
        insert_cell_exec(p, rel_ids, env_ids, &mut out, x);
        k += 1;
    }
    proof {
        assert(all.take(k as int) =~= all);
    }
    out
}

/// The whole matrix: a cell for every relationship in every environment, row by row,
/// each with the rules lint raises on it and the numbers of its connections.
pub fn coverage(project: &Project) -> (r: Matrix)
    ensures
        r@ == coverage_spec(project@),
{
    let findings = lint(project);
    let ghost p = project@;
    let ghost es = project@.environments;
    let ghost rels = relationship_ids(p.logical);
    let mut rel_ids: Vec<Id> = Vec::new();
    let mut i: usize = 0;
    while i < project.logical.relationships.len()
        invariant
            i <= project.logical.relationships@.len(),
            rels == relationship_ids(project@.logical),
            ids_view(rel_ids@) == rels.take(i as int),
        decreases project.logical.relationships.len() - i,
    {
        let ghost before = rel_ids@;
        rel_ids.push(project.logical.relationships[i].id.copy());
        proof {
            assert(rels[i as int] == project.logical.relationships@[i as int].id@);
            assert(ids_view(rel_ids@) =~= ids_view(before).push(rels[i as int]));
            assert(rels.take(i + 1) =~= rels.take(i as int).push(rels[i as int]));
        }
        i += 1;
    }
    assert(rels.take(i as int) =~= rels);
    let ghost envs = environment_ids(p);
    let mut env_ids: Vec<Id> = Vec::new();
    let mut i: usize = 0;
    while i < project.environments.len()
        invariant
            i <= project.environments@.len(),
            envs == environment_ids(project@),
            ids_view(env_ids@) == envs.take(i as int),
        decreases project.environments.len() - i,
    {
        let ghost before = env_ids@;
        env_ids.push(project.environments[i].id.copy());
        proof {
            assert(envs[i as int] == project.environments@[i as int].id@);
            assert(ids_view(env_ids@) =~= ids_view(before).push(envs[i as int]));
            assert(envs.take(i + 1) =~= envs.take(i as int).push(envs[i as int]));
        }
        i += 1;
    }
    assert(envs.take(i as int) =~= envs);

    let mut unsorted: Vec<Cell> = Vec::new();
    let mut i: usize = 0;
    while i < project.environments.len()
        invariant
            i <= project.environments@.len(),
            p == project@,
            es == project@.environments,
            findings_view(findings@).to_set() == lint_raw(p).to_set(),
            cells_view(unsorted@) == all_cells(p, es.take(i as int)),
        decreases project.environments.len() - i,
    {
        let e = &project.environments[i];
        let index = EnvIndex::build(project, e);
        let buckets = buckets_of(e, &findings);
        let ghost start = cells_view(unsorted@);
        let ghost ec = env_cells(p, e@);
        let mut c: usize = 0;
        while c < project.logical.relationships.len()
            invariant
                c <= project.logical.relationships@.len(),
                index.env_view() == e@,
                p == project@,
                ec == env_cells(p, e@),
                findings_view(findings@).to_set() == lint_raw(p).to_set(),
                buckets@.len() == findings@.len(),
                forall|k: int| 0 <= k < findings@.len() ==> (#[trigger] buckets@[k])@ == bucket(e@, findings@[k]@.subject),
                cells_view(unsorted@) == start + ec.take(c as int),
            decreases project.logical.relationships.len() - c,
        {
            let ghost before = unsorted@;
            let cell = cell_of(project, e, &index, &findings, &buckets, &project.logical.relationships[c].id);
            unsorted.push(cell);
            proof {
                assert(relationship_ids(p.logical)[c as int] == project.logical.relationships@[c as int].id@);
                assert(ec[c as int] == cell_spec(p, e@, relationship_ids(p.logical)[c as int]));
                assert(cells_view(unsorted@) =~= cells_view(before).push(ec[c as int]));
                assert(ec.take(c + 1) =~= ec.take(c as int).push(ec[c as int]));
            }
            c += 1;
        }
        proof {
            assert(ec.take(c as int) =~= ec);
            assert(es[i as int] == e@);
            assert(es.take(i + 1).drop_last() =~= es.take(i as int));
            assert(es.take(i + 1).last() == e@);
            assert(cells_view(unsorted@) =~= all_cells(p, es.take(i + 1)));
        }
        i += 1;
    }
    assert(es.take(i as int) =~= es);
    let ghost all = cells_view(unsorted@);
    let cells = sort_cells_exec(project, &rel_ids, &env_ids, unsorted, Ghost(all));
    Matrix { relationships: rel_ids, environments: env_ids, cells }
}

proof fn lemma_insert_cell_len(p: ProjectView, s: Seq<CellView>, x: CellView)
    ensures
        insert_cell(p, s, x).len() == s.len() + 1,
    decreases s.len(),
{
    if s.len() > 0 && cell_lt(p, x, s.last()) {
        lemma_insert_cell_len(p, s.drop_last(), x);
    }
}

proof fn lemma_sort_cells_len(p: ProjectView, s: Seq<CellView>)
    ensures
        sort_cells(p, s).len() == s.len(),
    decreases s.len(),
{
    if s.len() > 0 {
        lemma_sort_cells_len(p, s.drop_last());
        lemma_insert_cell_len(p, sort_cells(p, s.drop_last()), s.last());
    }
}

proof fn lemma_all_cells_len(p: ProjectView, es: Seq<EnvironmentView>)
    ensures
        all_cells(p, es).len() == es.len() * relationship_ids(p.logical).len(),
    decreases es.len(),
{
    if es.len() > 0 {
        lemma_all_cells_len(p, es.drop_last());
        let n = es.len() - 1;
        let m = relationship_ids(p.logical).len();
        assert(n * m + m == (n + 1) * m) by (nonlinear_arith);
    }
}

/// The matrix has exactly one cell for each pair of a relationship and an
/// environment: as many cells as rows times columns.
pub proof fn lemma_one_cell_per_pair(p: ProjectView)
    ensures
        coverage_spec(p).cells.len() == coverage_spec(p).relationships.len() * coverage_spec(p).environments.len(),
{
    lemma_all_cells_len(p, p.environments);
    lemma_sort_cells_len(p, all_cells(p, p.environments));
    assert(environment_ids(p).len() == p.environments.len());
    let a = p.environments.len();
    let b = relationship_ids(p.logical).len();
    assert(a * b == b * a) by (nonlinear_arith);
}

/// A cell is missing exactly when no connection of the environment serves the
/// relationship; a cell with a connection is broken exactly when one of its rules is an
/// error.
pub proof fn lemma_missing_means_no_connection(p: ProjectView, e: EnvironmentView, relationship: Seq<char>)
    ensures
        (cell_spec(p, e, relationship).status == Status::Missing) == (serving_spec(e, relationship).len() == 0),
        serving_spec(e, relationship).len() > 0 ==> ((cell_spec(p, e, relationship).status == Status::Broken)
            == (worst(cell_rules(p, e, relationship)) == Some(Severity::Error))),
{
}


/// Some rule of the list has this severity.
pub open spec fn has_severity(rules: Seq<Rule>, sev: Severity) -> bool {
    exists|i: int| 0 <= i < rules.len() && crate::lint::rule_severity(#[trigger] rules[i]) == sev
}

proof fn lemma_worst_is_the_worst(rules: Seq<Rule>)
    ensures
        (worst(rules) == Some(Severity::Error)) == has_severity(rules, Severity::Error),
        (worst(rules) == Some(Severity::Warning)) == (has_severity(rules, Severity::Warning)
            && !has_severity(rules, Severity::Error)),
    decreases rules.len(),
{
    if rules.len() > 0 {
        let d = rules.drop_last();
        lemma_worst_is_the_worst(d);
        let last = rules.last();
        assert(rules[rules.len() - 1] == last);
        assert forall|sev: Severity| has_severity(rules, sev) == (has_severity(d, sev) || crate::lint::rule_severity(last) == sev) by {
            if has_severity(rules, sev) {
                let i = choose|i: int| 0 <= i < rules.len() && crate::lint::rule_severity(#[trigger] rules[i]) == sev;
                if i < d.len() {
                    assert(d[i] == rules[i]);
                }
            }
            if has_severity(d, sev) {
                let i = choose|i: int| 0 <= i < d.len() && crate::lint::rule_severity(#[trigger] d[i]) == sev;
                assert(rules[i] == d[i]);
            }
        }
        assert(has_severity(rules, Severity::Error) == (has_severity(d, Severity::Error) || crate::lint::rule_severity(last) == Severity::Error));
        assert(has_severity(rules, Severity::Warning) == (has_severity(d, Severity::Warning) || crate::lint::rule_severity(last) == Severity::Warning));
        match worst(d) {
            Some(w) => {
                assert(has_severity(d, w)) by {
                    lemma_worst_member(d);
                }
            },
            None => {
                lemma_worst_member(d);
            },
        }
    }
}

proof fn lemma_worst_member(rules: Seq<Rule>)
    ensures
        match worst(rules) {
            Some(w) => has_severity(rules, w),
            None => rules.len() == 0,
        },
    decreases rules.len(),
{
    if rules.len() > 0 {
        let d = rules.drop_last();
        lemma_worst_member(d);
        assert(rules[rules.len() - 1] == rules.last());
        if let Some(w) = worst(d) {
            let i = choose|i: int| 0 <= i < d.len() && crate::lint::rule_severity(#[trigger] d[i]) == w;
            assert(rules[i] == d[i]);
        }
    }
}

/// What a cell's status says: with no serving connection it is missing; otherwise it is
/// broken exactly when one of its rules is an error, has a warning exactly when one is a
/// warning and none an error, and is realised exactly when none is either.
pub open spec fn status_fits(c: CellView) -> bool {
    c.status != Status::Missing ==> {
        &&& (c.status == Status::Broken) == has_severity(c.rules, Severity::Error)
        &&& (c.status == Status::Warning) == (has_severity(c.rules, Severity::Warning) && !has_severity(c.rules, Severity::Error))
        &&& (c.status == Status::Realized) == (!has_severity(c.rules, Severity::Warning) && !has_severity(c.rules, Severity::Error))
    }
}

/// One cell's status follows from whether anything serves the relationship and from the
/// severities of its rules.
pub proof fn lemma_cell_status(p: ProjectView, e: EnvironmentView, relationship: Seq<char>)
    ensures
        status_fits(cell_spec(p, e, relationship)),
        (cell_spec(p, e, relationship).status == Status::Missing) == (serving_spec(e, relationship).len() == 0),
{
    lemma_worst_is_the_worst(cell_rules(p, e, relationship));
}

proof fn lemma_insert_cell_members(p: ProjectView, s: Seq<CellView>, x: CellView, y: CellView)
    requires
        insert_cell(p, s, x).contains(y),
    ensures
        y == x || s.contains(y),
    decreases s.len(),
{
    let r = insert_cell(p, s, x);
    let k = choose|k: int| 0 <= k < r.len() && r[k] == y;
    if s.len() == 0 {
        assert(r[k] == x);
    } else if cell_lt(p, x, s.last()) {
        let rd = insert_cell(p, s.drop_last(), x);
        if k == rd.len() {
            assert(s[s.len() - 1] == y);
        } else {
            assert(rd[k] == y);
            lemma_insert_cell_members(p, s.drop_last(), x, y);
            if s.drop_last().contains(y) {
                let q = choose|q: int| 0 <= q < s.drop_last().len() && s.drop_last()[q] == y;
                assert(s[q] == y);
            }
        }
    } else {
        if k < s.len() {
            assert(s[k] == y);
        }
    }
}

proof fn lemma_sort_cells_members(p: ProjectView, s: Seq<CellView>, y: CellView)
    requires
        sort_cells(p, s).contains(y),
    ensures
        s.contains(y),
    decreases s.len(),
{
    if s.len() == 0 {
        assert(sort_cells(p, s) =~= Seq::<CellView>::empty());
    } else {
        let d = s.drop_last();
        lemma_insert_cell_members(p, sort_cells(p, d), s.last(), y);
        if y == s.last() {
            assert(s[s.len() - 1] == y);
        } else {
            lemma_sort_cells_members(p, d, y);
            let q = choose|q: int| 0 <= q < d.len() && d[q] == y;
            assert(s[q] == y);
        }
    }
}

proof fn lemma_all_cells_fit(p: ProjectView, es: Seq<EnvironmentView>, y: CellView)
    requires
        all_cells(p, es).contains(y),
    ensures
        status_fits(y),
    decreases es.len(),
{
    if es.len() == 0 {
        assert(all_cells(p, es) =~= Seq::<CellView>::empty());
    } else {
        let a = all_cells(p, es.drop_last());
        let b = env_cells(p, es.last());
        let k = choose|k: int| 0 <= k < (a + b).len() && (a + b)[k] == y;
        if k < a.len() {
            assert(a[k] == y);
            lemma_all_cells_fit(p, es.drop_last(), y);
        } else {
            assert(b[k - a.len()] == y);
            lemma_cell_status(p, es.last(), relationship_ids(p.logical)[k - a.len()]);
        }
    }
}

/// Every cell of the coverage matrix reports its rules' worst severity: a cell with a
/// serving connection has a warning exactly when one of its rules is a warning and
/// none an error, is broken exactly when one is an error, and is realised only when
/// none is either.
pub proof fn lemma_matrix_statuses(p: ProjectView)
    ensures
        forall|k: int| 0 <= k < coverage_spec(p).cells.len() ==> status_fits(#[trigger] coverage_spec(p).cells[k]),
{
    assert forall|k: int| 0 <= k < coverage_spec(p).cells.len() implies status_fits(#[trigger] coverage_spec(p).cells[k]) by {
        let y = coverage_spec(p).cells[k];
        assert(sort_cells(p, all_cells(p, p.environments)).contains(y));
        lemma_sort_cells_members(p, all_cells(p, p.environments), y);
        lemma_all_cells_fit(p, p.environments, y);
    }
}

} // verus!
