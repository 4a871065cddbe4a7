//! Cascading deletes: "deleting these, what else becomes dead weight".
//!
//! Deleting one element leaves what pointed at it dangling, for L012 and L003 to
//! name; that is right for one delete by hand, and a disaster for a restructuring,
//! where one system takes thirty elements with it. "Broken" is not defined anew here:
//! it is exactly L012 (a reference to nothing) and L003 (a connection to nothing),
//! whose subject is the element holding the broken reference, which is the next one
//! to delete. This module only computes; the plan must be shown before it is applied.

use vstd::prelude::*;
use crate::{Project, ProjectView};
use crate::duplicate::{Duplicate, Same};
use crate::edit::{Edit, EditError, EditErrorView, EditView, apply, apply_spec, batch_spec, connection_ids,
    lemma_batch_prefix_error, lemma_batch_step, lemma_batch_view};
use crate::environment::{EnvironmentView};
use crate::id::Id;
use crate::lint::{Finding, FindingView, Rule, findings_view, lint, lint_raw};
use crate::logical::{first_index, first_match, lemma_first_index, lemma_first_match, lemma_first_match_unique};
use crate::resource::{all_of, all_resources, find, find_spec, resource_id, resource_kind_name, resource_slug};
use crate::text::{blank, is_blank, trim_spec, trimmed};

verus! {

/// One thing to delete.
#[derive(Debug, Clone, PartialEq, Eq)]
pub struct Removal {
    pub edit: Edit,
    /// The name people read, such as `服務 redis`. Computed while the element is still
    /// there: once it is gone, only an id is left.
    pub what: String,
}

/// What [`plan`] found.
#[derive(Debug, Clone, PartialEq, Eq)]
pub struct Plan {
    /// The deletes swept up, broken first, deleted first.
    pub cascaded: Vec<Removal>,
    /// Broken references with no element to delete for them (such as an endpoint on an
    /// instance, which is not a resource of its own). Never swallowed: what remains for
    /// the user decides whether to press the button.
    pub unresolved: Vec<Finding>,
}

impl Default for Plan {
    fn default() -> (r: Plan)
        ensures
            r.cascaded@.len() == 0 && r.unresolved@.len() == 0,
    {
        Plan { cascaded: Vec::new(), unresolved: Vec::new() }
    }
}

impl Plan {
    /// Whether nothing more would be deleted and nothing is left broken.
    pub fn is_empty(&self) -> (r: bool)
        ensures
            r == (self.cascaded@.len() == 0 && self.unresolved@.len() == 0),
    {
        self.cascaded.len() == 0 && self.unresolved.len() == 0
    }
}

/// How a connection is named in a plan: its purpose, or that it has none.
pub open spec fn purpose_shown(p: Seq<char>) -> Seq<char> {
    if blank(p) {
        "沒填用途"@
    } else {
        trim_spec(p)
    }
}

pub open spec fn holds_connection(id: Seq<char>) -> spec_fn(EnvironmentView) -> bool {
    |e: EnvironmentView| connection_ids(e.connections).contains(id)
}

/// The delete that removes the element with this id, and its name: an element of the
/// model is deleted as a resource; a connection (not a resource) by its environment.
pub open spec fn removal_spec(p: ProjectView, id: Seq<char>) -> Option<(EditView, Seq<char>)> {
    match find_spec(p, id) {
        Some(r) => Some((EditView::DeleteResource(r), resource_kind_name(r) + " "@ + resource_slug(r))),
        None => match first_match(p.environments, holds_connection(id)) {
            Some(k) => {
                let e = p.environments[k];
                let j = first_index(connection_ids(e.connections), id)->Some_0;
                Some((
                    EditView::DeleteConnection { environment: e.id, connection: e.connections[j].id },
                    e.slug + " 的一條連線（"@ + purpose_shown(e.connections[j].purpose) + "）"@,
                ))
            },
            None => None,
        },
    }
}

/// The delete for the element with this id. Callers turn the ids the user picked into
/// seeds with it, so that picked and swept-up elements are deleted the same way.
pub fn removal(project: &Project, id: &Id) -> (r: Option<Removal>)
    ensures
        match removal_spec(project@, id@) {
            Some((e, w)) => r matches Some(x) && x.edit@ == e && x.what@ == w,
            None => r is None,
        },
{
    if let Some(found) = find(project, id) {
        let mut what = found.kind_name().to_string();
        what.append(" ");
        what.append(found.slug());
        proof {
            reveal_strlit(" ");
        }
        return Some(Removal { edit: Edit::DeleteResource(found), what });
    }
    proof {
        lemma_first_match(project@.environments, holds_connection(id@));
    }
    let mut k: usize = 0;
    while k < project.environments.len()
        invariant
            k <= project.environments@.len(),
            find_spec(project@, id@) is None,
            forall|i: int| 0 <= i < k ==> !(holds_connection(id@))(#[trigger] project@.environments[i]),
        decreases project.environments.len() - k,
    {
        let env = &project.environments[k];
        let ghost ev = env@;
        assert(ev == project@.environments[k as int]);
        proof {
            assert(crate::duplicate::views(env.connections@) =~= ev.connections);
            assert(crate::keyed::keys::<crate::environment::Connection>(crate::duplicate::views(env.connections@)) =~= connection_ids(ev.connections));
            lemma_first_index(connection_ids(ev.connections), id@);
            crate::logical::lemma_first_index_contains(connection_ids(ev.connections), id@);
        }
        if let Some(j) = crate::keyed::find_key(&env.connections, id) {
            proof {
                lemma_first_match_unique(project@.environments, holds_connection(id@), k as int);
            }
            let c = &env.connections[j];
            let mut what = env.slug.clone();
            what.append(" 的一條連線（");
            if is_blank(c.purpose.as_str()) {
                what.append("沒填用途");
            } else {
                let shown = trimmed(c.purpose.as_str());
                what.append(shown.as_str());
            }
            what.append("）");
            proof {
                reveal_strlit(" 的一條連線（");
                reveal_strlit("沒填用途");
                reveal_strlit("）");
            }
            return Some(Removal {
                edit: Edit::DeleteConnection { environment: env.id.copy(), connection: c.id.copy() },
                what,
            });
        }
        k += 1;
    }
    None
}

/// What lint calls broken: a reference to nothing (L012) or a connection to nothing (L003).
pub open spec fn is_broken(f: FindingView) -> bool {
    f.rule == Rule::L003 || f.rule == Rule::L012
}

/// The id a delete removes.
pub open spec fn removal_subject(e: EditView) -> Seq<char> {
    match e {
        EditView::DeleteResource(r) => resource_id(r),
        EditView::DeleteConnection { connection, .. } => connection,
        _ => seq![],
    }
}

pub open spec fn removals_view(s: Seq<Removal>) -> Seq<EditView> {
    s.map_values(|x: Removal| x.edit@)
}

pub open spec fn edits_view(s: Seq<Edit>) -> Seq<EditView> {
    s.map_values(|e: Edit| e@)
}

/// Whether a plan deals with this id: a delete removes it, or it is reported unresolved.
pub open spec fn handled(cascaded: Seq<Removal>, unresolved: Seq<Finding>, id: Seq<char>) -> bool {
    (exists|i: int| 0 <= i < cascaded.len() && removal_subject((#[trigger] cascaded[i]).edit@) == id) || (exists|j: int|
        0 <= j < unresolved.len() && (#[trigger] unresolved[j]).subject@ == id)
}

/// How many connections the environments have together.
pub open spec fn conn_total(es: Seq<EnvironmentView>) -> nat
    decreases es.len(),
{
    if es.len() == 0 {
        0
    } else {
        conn_total(es.drop_last()) + es.last().connections.len()
    }
}

fn count_connections(project: &Project) -> (r: u128)
    ensures
        r == conn_total(project@.environments),
{
    let ghost es = project@.environments;
    let mut sum: u128 = 0;
    let mut i: usize = 0;
    while i < project.environments.len()
        invariant
            i <= project.environments@.len(),
            es == project@.environments,
            sum == conn_total(es.take(i as int)),
            sum <= (i as u128) * 0x1_0000_0000_0000_0000u128,
        decreases project.environments.len() - i,
    {
        proof {
            let c = es.take(i + 1);
            assert(c.drop_last() =~= es.take(i as int));
            assert(c.last().connections.len() == project.environments@[i as int].connections@.len());
        }
        let n = project.environments[i].connections.len() as u128;
        assert(n < 0x1_0000_0000_0000_0000u128);
        assert((i as u128) * 0x1_0000_0000_0000_0000u128 + 0x1_0000_0000_0000_0000u128 == ((i + 1) as u128) * 0x1_0000_0000_0000_0000u128) by (nonlinear_arith);
        assert(((i + 1) as u128) * 0x1_0000_0000_0000_0000u128 <= 0x1_0000_0000_0000_0000u128 * 0x1_0000_0000_0000_0000u128) by (nonlinear_arith)
            requires
                i + 1 <= 0x1_0000_0000_0000_0000u128;
        sum = sum + n;
        i += 1;
    }
    assert(es.take(i as int) =~= es);
    sum
}

fn contains_id(v: &Vec<Id>, id: &Id) -> (r: bool)
    ensures
        r == (exists|k: int| 0 <= k < v@.len() && (#[trigger] v@[k])@ == id@),
{
    let mut i: usize = 0;
    while i < v.len()
        invariant
            i <= v@.len(),
            forall|k: int| 0 <= k < i ==> (#[trigger] v@[k])@ != id@,
        decreases v.len() - i,
    {
        if v[i].same(id) {
            return true;
        }
        i += 1;
    }
    false
}

/// The broken findings of the project whose subject is not among `seen`, in lint's order.
fn unseen_broken(scratch: &Project, seen: &Vec<Id>) -> (r: Vec<Finding>)
    ensures
        forall|k: int| 0 <= k < r@.len() ==> is_broken(#[trigger] r@[k]@) && lint_raw(scratch@).contains(r@[k]@),
        forall|f: FindingView| #[trigger] lint_raw(scratch@).contains(f) && is_broken(f)
            ==> (exists|k: int| 0 <= k < seen@.len() && (#[trigger] seen@[k])@ == f.subject) || (exists|k: int|
                0 <= k < r@.len() && #[trigger] r@[k]@ == f),
{
    let findings = lint(scratch);
    let ghost fs = findings_view(findings@);
    let mut out: Vec<Finding> = Vec::new();
    let mut i: usize = 0;
    while i < findings.len()
        invariant
            i <= findings@.len(),
            fs == findings_view(findings@),
            fs.to_set() == lint_raw(scratch@).to_set(),
            forall|k: int| 0 <= k < out@.len() ==> is_broken(#[trigger] out@[k]@) && lint_raw(scratch@).contains(out@[k]@),
            forall|m: int| 0 <= m < i && is_broken(#[trigger] fs[m]) ==> (exists|k: int| 0 <= k < seen@.len() && (#[trigger] seen@[k])@ == fs[m].subject)
                || (exists|k: int| 0 <= k < out@.len() && #[trigger] out@[k]@ == fs[m]),
        decreases findings.len() - i,
    {
        let f = &findings[i];
        assert(fs[i as int] == f@);
        proof {
            assert(fs.to_set().contains(f@));
        }
        if (f.rule == Rule::L003 || f.rule == Rule::L012) && !contains_id(seen, &f.subject) {
            let ghost before = out@;
            out.push(f.copy());
            proof {
                assert(out@[before.len() as int]@ == fs[i as int]);
                assert forall|m: int| 0 <= m < i + 1 && is_broken(#[trigger] fs[m]) implies (exists|k: int| 0 <= k < seen@.len() && (#[trigger] seen@[k])@ == fs[m].subject)
                    || (exists|k: int| 0 <= k < out@.len() && #[trigger] out@[k]@ == fs[m]) by {
                    if m < i {
                        if exists|k: int| 0 <= k < before.len() && #[trigger] before[k]@ == fs[m] {
                            let k = choose|k: int| 0 <= k < before.len() && #[trigger] before[k]@ == fs[m];
                            assert(out@[k] == before[k]);
                        }
                    } else {
                        assert(out@[before.len() as int]@ == fs[m]);
                    }
                }
            }
        }
        i += 1;
    }
    proof {
        assert forall|f: FindingView| #[trigger] lint_raw(scratch@).contains(f) && is_broken(f)
            implies (exists|k: int| 0 <= k < seen@.len() && (#[trigger] seen@[k])@ == f.subject) || (exists|k: int|
                0 <= k < out@.len() && #[trigger] out@[k]@ == f) by {
            assert(lint_raw(scratch@).to_set().contains(f));
            assert(fs.to_set().contains(f));
            let m = choose|m: int| 0 <= m < fs.len() && fs[m] == f;
            assert(is_broken(fs[m]));
        }
    }
    out
}

/// What a plan promises once the seeds apply: its deletes apply one after the other,
/// its unresolved findings are broken ones, and after the deletes every broken finding
/// of lint is about an id the plan deals with.
pub open spec fn plan_ok(s0: ProjectView, cascaded: Seq<Removal>, unresolved: Seq<Finding>) -> bool {
    &&& batch_spec(s0, removals_view(cascaded)) is Ok
    &&& forall|f: FindingView| #[trigger] lint_raw(batch_spec(s0, removals_view(cascaded))->Ok_0).contains(f) && is_broken(f)
        ==> handled(cascaded, unresolved, f.subject)
    &&& forall|j: int| 0 <= j < unresolved.len() ==> is_broken(#[trigger] unresolved[j]@)
}

proof fn lemma_removals_push(cascaded: Seq<Removal>, x: Removal)
    ensures
        removals_view(cascaded.push(x)) == removals_view(cascaded).push(x.edit@),
{
    assert(removals_view(cascaded.push(x)) =~= removals_view(cascaded).push(x.edit@));
}

/// What holds between rounds: the deletes so far lead from `s0` to `scratch`, every id
/// looked at is dealt with, and what is unresolved is broken.
pub open spec fn sweep_state(s0: ProjectView, scratch: ProjectView, cascaded: Seq<Removal>, unresolved: Seq<Finding>, seen: Seq<Id>) -> bool {
    &&& batch_spec(s0, removals_view(cascaded)) == Ok::<ProjectView, EditErrorView>(scratch)
    &&& forall|k: int| 0 <= k < seen.len() ==> handled(cascaded, unresolved, (#[trigger] seen[k])@)
    &&& forall|j: int| 0 <= j < unresolved.len() ==> is_broken(#[trigger] unresolved[j]@)
}

proof fn lemma_handled_grows(c0: Seq<Removal>, u0: Seq<Finding>, c1: Seq<Removal>, u1: Seq<Finding>, id: Seq<char>)
    requires
        handled(c0, u0, id),
        c0.len() <= c1.len(),
        u0.len() <= u1.len(),
        forall|q: int| 0 <= q < c0.len() ==> c1[q] == c0[q],
        forall|q: int| 0 <= q < u0.len() ==> u1[q] == u0[q],
    ensures
        handled(c1, u1, id),
{
    if exists|q: int| 0 <= q < c0.len() && removal_subject((#[trigger] c0[q]).edit@) == id {
        let q = choose|q: int| 0 <= q < c0.len() && removal_subject((#[trigger] c0[q]).edit@) == id;
        assert(c1[q] == c0[q]);
    } else {
        let q = choose|q: int| 0 <= q < u0.len() && (#[trigger] u0[q]).subject@ == id;
        assert(u1[q] == u0[q]);
    }
}

/// Deals with one broken finding: deletes its subject when there is a delete for it that
/// applies, else reports it unresolved; either way its subject counts as seen.
fn settle(scratch: &mut Project, out: &mut Plan, seen: &mut Vec<Id>, f: &Finding, Ghost(s0): Ghost<ProjectView>)
    requires
        sweep_state(s0, old(scratch)@, old(out).cascaded@, old(out).unresolved@, old(seen)@),
        is_broken(f@),
    ensures
        sweep_state(s0, final(scratch)@, final(out).cascaded@, final(out).unresolved@, final(seen)@),
        handled(final(out).cascaded@, final(out).unresolved@, f@.subject),
{
    let ghost c0 = out.cascaded@;
    let ghost u0 = out.unresolved@;
    let ghost seen0 = seen@;
    match removal(scratch, &f.subject) {
        Some(rm) => {
            let ghost before = scratch@;
            proof {
                lemma_batch_step(s0, removals_view(c0).push(rm.edit@), c0.len() as int);
                assert(removals_view(c0).push(rm.edit@).take(c0.len() as int) =~= removals_view(c0));
                assert(removals_view(c0).push(rm.edit@).take(c0.len() as int + 1) =~= removals_view(c0).push(rm.edit@));
            }
            if apply(scratch, &rm.edit).is_err() {
                out.unresolved.push(f.copy());
            } else {
            proof {
                lemma_removals_push(c0, rm);
                match find_spec(before, f.subject@) {
                    Some(x) => {
                        crate::logical::lemma_first_match(all_resources(before), crate::resource::has_id(f.subject@));
                    },
                    None => {
                        crate::logical::lemma_first_match(before.environments, holds_connection(f.subject@));
                        let kk = first_match(before.environments, holds_connection(f.subject@))->Some_0;
                        let ev = before.environments[kk];
                        lemma_first_index(connection_ids(ev.connections), f.subject@);
                    },
                }
                assert(removal_subject(rm.edit@) == f.subject@);
            }
            out.cascaded.push(rm);
            }
        },
        None => {
            out.unresolved.push(f.copy());
        },
    }
    seen.push(f.subject.copy());
    proof {
        let c1 = out.cascaded@;
        let u1 = out.unresolved@;
        if c1.len() > c0.len() {
            assert(removal_subject(c1[c0.len() as int].edit@) == f@.subject);
        } else {
            assert(u1[u0.len() as int]@ == f@);
        }
        assert(handled(c1, u1, f@.subject));
        assert forall|k: int| 0 <= k < seen@.len() implies handled(c1, u1, (#[trigger] seen@[k])@) by {
            if k < seen0.len() {
                assert(seen@[k] == seen0[k]);
                lemma_handled_grows(c0, u0, c1, u1, seen0[k]@);
            }
        }
        assert forall|m: int| 0 <= m < u1.len() implies is_broken(#[trigger] u1[m]@) by {
            if m < u0.len() {
                assert(u1[m] == u0[m]);
            }
        }
    }
}

/// Reports every broken finding not dealt with yet as unresolved.
fn report_rest(scratch: &Project, out: &mut Plan, seen: &Vec<Id>, Ghost(s0): Ghost<ProjectView>)
    requires
        sweep_state(s0, scratch@, old(out).cascaded@, old(out).unresolved@, seen@),
    ensures
        final(out).cascaded@ == old(out).cascaded@,
        sweep_state(s0, scratch@, final(out).cascaded@, final(out).unresolved@, seen@),
        forall|f: FindingView| #[trigger] lint_raw(scratch@).contains(f) && is_broken(f)
            ==> handled(final(out).cascaded@, final(out).unresolved@, f.subject),
{
    let rest = unseen_broken(scratch, seen);
    let mut k: usize = 0;
    while k < rest.len()
        invariant
            k <= rest@.len(),
            out.cascaded@ == old(out).cascaded@,
            sweep_state(s0, scratch@, out.cascaded@, out.unresolved@, seen@),
            forall|q: int| 0 <= q < rest@.len() ==> is_broken(#[trigger] rest@[q]@),
            forall|q: int| 0 <= q < k ==> handled(out.cascaded@, out.unresolved@, (#[trigger] rest@[q])@.subject),
        decreases rest.len() - k,
    {
        let ghost c0 = out.cascaded@;
        let ghost u0 = out.unresolved@;
        out.unresolved.push(rest[k].copy());
        proof {
            let u1 = out.unresolved@;
            assert(u1[u0.len() as int]@ == rest@[k as int]@);
            assert forall|q: int| 0 <= q < seen@.len() implies handled(c0, u1, (#[trigger] seen@[q])@) by {
                lemma_handled_grows(c0, u0, c0, u1, seen@[q]@);
            }
            assert forall|q: int| 0 <= q < k + 1 implies handled(c0, u1, (#[trigger] rest@[q])@.subject) by {
                if q < k {
                    lemma_handled_grows(c0, u0, c0, u1, rest@[q]@.subject);
                } else {
                    assert(u1[u0.len() as int].subject@ == rest@[q]@.subject);
                }
            }
            assert forall|m: int| 0 <= m < u1.len() implies is_broken(#[trigger] u1[m]@) by {
                if m < u0.len() {
                    assert(u1[m] == u0[m]);
                }
            }
        }
        k += 1;
    }
    proof {
        assert forall|f: FindingView| #[trigger] lint_raw(scratch@).contains(f) && is_broken(f)
            implies handled(out.cascaded@, out.unresolved@, f.subject) by {
            if exists|q: int| 0 <= q < seen@.len() && (#[trigger] seen@[q])@ == f.subject {
                let q = choose|q: int| 0 <= q < seen@.len() && (#[trigger] seen@[q])@ == f.subject;
            } else {
                let q = choose|q: int| 0 <= q < rest@.len() && #[trigger] rest@[q]@ == f;
            }
        }
    }
}

/// Applies the seeds to a copy of the project.
fn apply_seeds(project: &Project, seeds: &[Edit]) -> (r: Result<Project, EditError>)
    ensures
        match batch_spec(project@, edits_view(seeds@)) {
            Ok(s0) => r matches Ok(q) && q@ == s0,
            Err(x) => r matches Err(y) && y@ == x,
        },
{
    let ghost p0 = project@;
    let ghost sv = edits_view(seeds@);
    let mut scratch = project.duplicate();
    let mut i: usize = 0;
    while i < seeds.len()
        invariant
            i <= seeds@.len(),
            p0 == project@,
            sv == edits_view(seeds@),
            batch_spec(p0, sv.take(i as int)) == Ok::<ProjectView, EditErrorView>(scratch@),
        decreases seeds.len() - i,
    {
        proof {
            lemma_batch_step(p0, sv, i as int);
            assert(sv[i as int] == seeds@[i as int]@);
        }
        match apply(&mut scratch, &seeds[i]) {
            Ok(()) => {},
            Err(x) => {
                proof {
                    lemma_batch_prefix_error(p0, sv, i + 1);
                }
                return Err(x);
            },
        }
        i += 1;
    }
    assert(sv.take(i as int) =~= sv);
    Ok(scratch)
}

/// Computes what deleting the seeds sweeps up, on a copy: the project is never
/// touched. It fails only when a seed itself cannot be applied; a delete it finds that
/// does not apply leaves its element reported as unresolved. Each round deals with every element that lint now calls
/// broken and that was not dealt with before; an element dealt with is never looked
/// at again. When a round deletes nothing that makes the project smaller, nothing more
/// can be swept up, and what is still broken is reported as unresolved.
pub fn plan(project: &Project, seeds: &[Edit]) -> (r: Result<Plan, EditError>)
    ensures
        match batch_spec(project@, edits_view(seeds@)) {
            Err(x) => r matches Err(y) && y@ == x,
            Ok(s0) => r matches Ok(pl) && plan_ok(s0, pl.cascaded@, pl.unresolved@),
        },
{
    let mut scratch = apply_seeds(project, seeds)?;
    let ghost s0 = scratch@;
    let mut out = Plan::default();
    let mut seen: Vec<Id> = Vec::new();
    assert(removals_view(out.cascaded@) =~= Seq::<EditView>::empty());
    assert(batch_spec(s0, Seq::<EditView>::empty()) == Ok::<ProjectView, EditErrorView>(s0));
    loop
        invariant
            batch_spec(project@, edits_view(seeds@)) == Ok::<ProjectView, EditErrorView>(s0),
            sweep_state(s0, scratch@, out.cascaded@, out.unresolved@, seen@),
        ensures
            batch_spec(project@, edits_view(seeds@)) == Ok::<ProjectView, EditErrorView>(s0),
            sweep_state(s0, scratch@, out.cascaded@, out.unresolved@, seen@),
            forall|f: FindingView| #[trigger] lint_raw(scratch@).contains(f) && is_broken(f)
                ==> handled(out.cascaded@, out.unresolved@, f.subject),
        decreases all_resources(scratch@).len(), conn_total(scratch@.environments),
    {
        let broken = unseen_broken(&scratch, &seen);
        if broken.len() == 0 {
            proof {
                assert forall|f: FindingView| #[trigger] lint_raw(scratch@).contains(f) && is_broken(f)
                    implies handled(out.cascaded@, out.unresolved@, f.subject) by {
                    let k = choose|k: int| 0 <= k < seen@.len() && (#[trigger] seen@[k])@ == f.subject;
                }
            }
            break;
        }
        let res0 = all_of(&scratch).len();
        let conn0 = count_connections(&scratch);
        let mut j: usize = 0;
        while j < broken.len()
            invariant
                j <= broken@.len(),
                batch_spec(project@, edits_view(seeds@)) == Ok::<ProjectView, EditErrorView>(s0),
                sweep_state(s0, scratch@, out.cascaded@, out.unresolved@, seen@),
                forall|k: int| 0 <= k < broken@.len() ==> is_broken(#[trigger] broken@[k]@),
            decreases broken.len() - j,
        {
            if !contains_id(&seen, &broken[j].subject) {
                settle(&mut scratch, &mut out, &mut seen, &broken[j], Ghost(s0));
            }
            j += 1;
        }
        let res1 = all_of(&scratch).len();
        let conn1 = count_connections(&scratch);
        if res1 < res0 || (res1 == res0 && conn1 < conn0) {
            continue;
        }
        report_rest(&scratch, &mut out, &seen, Ghost(s0));
        break;
    }
    Ok(out)
}

} // verus!