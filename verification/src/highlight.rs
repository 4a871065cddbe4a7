//! What on the diagram should stay lit.
//!
//! Filtering dims, it never hides: the set of shapes on the diagram stays the same, so
//! reconciliation is untouched by any filter. This answers "what stays lit"; the rest
//! is drawn dimmed. It is built on [`crate::table::rows`], which already says which
//! elements a connection involves.

use vstd::prelude::*;
use crate::{Project, ProjectView, environment_ids};
use crate::environment::{DeploymentNode, DeploymentNodeView, Environment, EnvironmentView, nodes_view,
    lemma_children_view};
use crate::id::Id;
use crate::index::contains_id;
use crate::logical::{RelationshipView, first_index};
use crate::order::{ids_view, strictly_sorted, insert_sorted_unique};
use crate::table::{Row, RowView, rows, rows_spec, rows_view};

verus! {

/// What the user ticked. The two conditions are combined with AND, as in the table.
#[derive(Debug, Clone, PartialEq, Eq)]
pub struct Focus {
    /// Keep only these relationships. Empty means no filter, not "none of them".
    pub relationships: Vec<Id>,
    /// Keep only what lint complains about.
    pub problems: bool,
}

pub struct FocusView {
    pub relationships: Seq<Seq<char>>,
    pub problems: bool,
}

impl View for Focus {
    type V = FocusView;

    open spec fn view(&self) -> FocusView {
        FocusView { relationships: ids_view(self.relationships@), problems: self.problems }
    }
}

impl Default for Focus {
    fn default() -> (r: Focus)
        ensures
            r@.relationships.len() == 0,
            !r@.problems,
    {
        Focus { relationships: Vec::new(), problems: false }
    }
}

impl Focus {
    /// Nothing ticked: then nothing needs dimming.
    pub fn is_empty(&self) -> (r: bool)
        ensures
            r == (self@.relationships.len() == 0 && !self@.problems),
    {
        self.relationships.len() == 0 && !self.problems
    }
}

/// What stays lit; anything not listed is dimmed.
#[derive(Debug, Clone, PartialEq, Eq)]
pub struct Highlight {
    /// The shapes to light, machines and sites included, in increasing order of id.
    pub shapes: Vec<Id>,
    /// The connections to light, in increasing order of id.
    pub connections: Vec<Id>,
}

impl Default for Highlight {
    fn default() -> (r: Highlight)
        ensures
            r.shapes@.len() == 0,
            r.connections@.len() == 0,
    {
        Highlight { shapes: Vec::new(), connections: Vec::new() }
    }
}

/// Whether a row survives the focus in this environment.
pub open spec fn kept(env: Seq<char>, focus: FocusView, r: RowView) -> bool {
    &&& r.environment == env
    &&& (focus.relationships.len() == 0 || focus.relationships.contains(r.serves))
    &&& (!focus.problems || r.rules.len() > 0)
}

/// The shapes the kept rows involve.
pub open spec fn lit_shapes(rs: Seq<RowView>, env: Seq<char>, focus: FocusView) -> Set<Seq<char>> {
    Set::new(|id: Seq<char>| exists|k: int| 0 <= k < rs.len() && kept(env, focus, rs[k]) && rs[k].subjects.contains(id))
}

/// The kept rows' connections.
pub open spec fn lit_connections(rs: Seq<RowView>, env: Seq<char>, focus: FocusView) -> Set<Seq<char>> {
    Set::new(|id: Seq<char>| exists|k: int| 0 <= k < rs.len() && kept(env, focus, rs[k]) && rs[k].id == id)
}

/// A node lights up when anything below it is lit (an instance on it, or a lit node
/// further down). Returns the lit set and whether anything in the tree is lit.
pub open spec fn light_tree(n: DeploymentNodeView, lit: Set<Seq<char>>) -> (Set<Seq<char>>, bool)
    decreases n,
{
    let (l1, b1) = light_forest(n.children, lit);
    let below = b1 || exists|k: int| 0 <= k < n.instances.len() && l1.contains(n.instances[k].id);
    let l2 = if below { l1.insert(n.id) } else { l1 };
    (l2, below || l2.contains(n.id))
}

pub open spec fn light_forest(s: Seq<DeploymentNodeView>, lit: Set<Seq<char>>) -> (Set<Seq<char>>, bool)
    decreases s,
{
    if s.len() == 0 {
        (lit, false)
    } else {
        let (l1, a1) = light_forest(s.drop_last(), lit);
        let (l2, a2) = light_tree(s.last(), l1);
        (l2, a1 || a2)
    }
}

/// The shapes lit in an environment: those the kept rows involve, plus every machine
/// and site with something lit below it (in the first environment with that id).
pub open spec fn highlight_shapes(p: ProjectView, env: Seq<char>, focus: FocusView) -> Set<Seq<char>> {
    let base = lit_shapes(rows_spec(p), env, focus);
    match first_index(environment_ids(p), env) {
        Some(k) => light_forest(p.environments[k].nodes, base).0,
        None => base,
    }
}

fn light_forest_exec(nodes: &Vec<DeploymentNode>, lit: &mut Vec<Id>) -> (any: bool)
    requires
        strictly_sorted(ids_view(old(lit)@)),
    ensures
        strictly_sorted(ids_view(final(lit)@)),
        (ids_view(final(lit)@).to_set(), any) == light_forest(nodes_view(nodes@), ids_view(old(lit)@).to_set()),
    decreases nodes@,
{
    let ghost lit0 = ids_view(lit@).to_set();
    let ghost s = nodes_view(nodes@);
    let mut any = false;
    let mut i: usize = 0;
    while i < nodes.len()
        invariant
            i <= nodes@.len(),
            s == nodes_view(nodes@),
            strictly_sorted(ids_view(lit@)),
            (ids_view(lit@).to_set(), any) == light_forest(s.take(i as int), lit0),
        decreases nodes.len() - i,
    {
        let node = &nodes[i];
        let ghost l0 = ids_view(lit@).to_set();
        proof {
            lemma_children_view(*node);
            assert(decreases_to!(nodes@ => node));
        }
        let b1 = light_forest_exec(&node.children, lit);
        let ghost l1 = ids_view(lit@).to_set();
        let mut own = false;
        let mut k: usize = 0;
        while k < node.instances.len()
            invariant
                k <= node.instances@.len(),
                own == exists|j: int| 0 <= j < k && l1.contains(node@.instances[j].id),
                l1 == ids_view(lit@).to_set(),
            decreases node.instances.len() - k,
        {
            proof {
                assert(node@.instances[k as int] == node.instances@[k as int]@);
            }
            if contains_id(lit, &node.instances[k].id) {
                own = true;
            }
            k += 1;
        }
        let below = b1 || own;
        if below {
            insert_sorted_unique(lit, &node.id);
        }
        let here = contains_id(lit, &node.id);
        proof {
            assert(light_tree(node@, l0) == (ids_view(lit@).to_set(), below || here));
            assert(s.take(i + 1).drop_last() =~= s.take(i as int));
            assert(s.take(i + 1).last() == node@);
        }
        if below || here {
            any = true;
        }
        i += 1;
    }
    assert(s.take(i as int) =~= s);
    any
}


proof fn lemma_lit_step(rs: Seq<RowView>, env: Seq<char>, focus: FocusView, i: int)
    requires
        0 <= i < rs.len(),
    ensures
        lit_shapes(rs.take(i + 1), env, focus) == if kept(env, focus, rs[i]) {
            lit_shapes(rs.take(i), env, focus) + rs[i].subjects.to_set()
        } else {
            lit_shapes(rs.take(i), env, focus)
        },
        lit_connections(rs.take(i + 1), env, focus) == if kept(env, focus, rs[i]) {
            lit_connections(rs.take(i), env, focus).insert(rs[i].id)
        } else {
            lit_connections(rs.take(i), env, focus)
        },
{
    let a = rs.take(i + 1);
    let b = rs.take(i);
    assert forall|k: int| 0 <= k < i implies a[k] == b[k] by {}
    assert(a[i] == rs[i]);
    if kept(env, focus, rs[i]) {
        assert(lit_shapes(a, env, focus) =~= lit_shapes(b, env, focus) + rs[i].subjects.to_set()) by {
            assert forall|id: Seq<char>| lit_shapes(a, env, focus).contains(id) implies (lit_shapes(b, env, focus) + rs[i].subjects.to_set()).contains(id) by {
                let k = choose|k: int| 0 <= k < a.len() && kept(env, focus, a[k]) && a[k].subjects.contains(id);
                if k < i {
                    assert(b[k] == a[k]);
                }
            }
            assert forall|id: Seq<char>| (lit_shapes(b, env, focus) + rs[i].subjects.to_set()).contains(id) implies lit_shapes(a, env, focus).contains(id) by {
                if lit_shapes(b, env, focus).contains(id) {
                    let k = choose|k: int| 0 <= k < b.len() && kept(env, focus, b[k]) && b[k].subjects.contains(id);
                    assert(a[k] == b[k]);
                } else {
                    assert(a[i].subjects.contains(id));
                }
            }
        }
        assert(lit_connections(a, env, focus) =~= lit_connections(b, env, focus).insert(rs[i].id)) by {
            assert forall|id: Seq<char>| lit_connections(a, env, focus).contains(id) implies lit_connections(b, env, focus).insert(rs[i].id).contains(id) by {
                let k = choose|k: int| 0 <= k < a.len() && kept(env, focus, a[k]) && a[k].id == id;
                if k < i {
                    assert(b[k] == a[k]);
                }
            }
            assert forall|id: Seq<char>| lit_connections(b, env, focus).insert(rs[i].id).contains(id) implies lit_connections(a, env, focus).contains(id) by {
                if lit_connections(b, env, focus).contains(id) {
                    let k = choose|k: int| 0 <= k < b.len() && kept(env, focus, b[k]) && b[k].id == id;
                    assert(a[k] == b[k]);
                } else {
                    assert(a[i].id == id);
                }
            }
        }
    } else {
        assert(lit_shapes(a, env, focus) =~= lit_shapes(b, env, focus)) by {
            assert forall|id: Seq<char>| lit_shapes(a, env, focus).contains(id) implies lit_shapes(b, env, focus).contains(id) by {
                let k = choose|k: int| 0 <= k < a.len() && kept(env, focus, a[k]) && a[k].subjects.contains(id);
                assert(k != i);
                assert(b[k] == a[k]);
            }
            assert forall|id: Seq<char>| lit_shapes(b, env, focus).contains(id) implies lit_shapes(a, env, focus).contains(id) by {
                let k = choose|k: int| 0 <= k < b.len() && kept(env, focus, b[k]) && b[k].subjects.contains(id);
                assert(a[k] == b[k]);
            }
        }
        assert(lit_connections(a, env, focus) =~= lit_connections(b, env, focus)) by {
            assert forall|id: Seq<char>| lit_connections(a, env, focus).contains(id) implies lit_connections(b, env, focus).contains(id) by {
                let k = choose|k: int| 0 <= k < a.len() && kept(env, focus, a[k]) && a[k].id == id;
                assert(k != i);
                assert(b[k] == a[k]);
            }
            assert forall|id: Seq<char>| lit_connections(b, env, focus).contains(id) implies lit_connections(a, env, focus).contains(id) by {
                let k = choose|k: int| 0 <= k < b.len() && kept(env, focus, b[k]) && b[k].id == id;
                assert(a[k] == b[k]);
            }
        }
    }
}

/// Adds every id of `more` to a strictly increasing list.
fn add_all(lit: &mut Vec<Id>, more: &Vec<Id>)
    requires
        strictly_sorted(ids_view(old(lit)@)),
    ensures
        strictly_sorted(ids_view(final(lit)@)),
        ids_view(final(lit)@).to_set() == ids_view(old(lit)@).to_set() + ids_view(more@).to_set(),
{
    let ghost start = ids_view(lit@).to_set();
    let mut i: usize = 0;
    while i < more.len()
        invariant
            i <= more@.len(),
            strictly_sorted(ids_view(lit@)),
            ids_view(lit@).to_set() == start + ids_view(more@).take(i as int).to_set(),
        decreases more.len() - i,
    {
        insert_sorted_unique(lit, &more[i]);
        proof {
            let m = ids_view(more@);
            assert(m.take(i + 1) =~= m.take(i as int).push(m[i as int]));
            m.take(i as int).lemma_push_to_set_commute(m[i as int]);
            assert(ids_view(lit@).to_set() =~= start + m.take(i + 1).to_set());
        }
        i += 1;
    }
    assert(ids_view(more@).take(i as int) =~= ids_view(more@));
}

/// What stays lit in one environment under a focus.
///
/// The connections of the kept rows, and the shapes they involve plus every machine and
/// site that has something lit below it: a lit service floating in grey would not show
/// which machine it runs on. Both lists are in increasing order, each id once.
pub fn highlight(project: &Project, environment: &Id, focus: &Focus) -> (r: Highlight)
    ensures
        strictly_sorted(ids_view(r.shapes@)),
        strictly_sorted(ids_view(r.connections@)),
        ids_view(r.shapes@).to_set() == highlight_shapes(project@, environment@, focus@),
        ids_view(r.connections@).to_set() == lit_connections(rows_spec(project@), environment@, focus@),
{
    let all = rows(project);
    let ghost rs = rows_spec(project@);
    let ghost env = environment@;
    let ghost fo = focus@;
    let mut shapes: Vec<Id> = Vec::new();
    let mut connections: Vec<Id> = Vec::new();
    proof {
        assert(ids_view(shapes@).to_set() =~= lit_shapes(rs.take(0), env, fo));
        assert(ids_view(connections@).to_set() =~= lit_connections(rs.take(0), env, fo));
    }
    let mut i: usize = 0;
    while i < all.len()
        invariant
            i <= all@.len(),
            rows_view(all@) == rs,
            env == environment@,
            fo == focus@,
            strictly_sorted(ids_view(shapes@)),
            strictly_sorted(ids_view(connections@)),
            ids_view(shapes@).to_set() == lit_shapes(rs.take(i as int), env, fo),
            ids_view(connections@).to_set() == lit_connections(rs.take(i as int), env, fo),
        decreases all.len() - i,
    {
        let row = &all[i];
        let wanted = focus.relationships.len() == 0 || contains_id(&focus.relationships, &row.serves);
        let keep = row.environment.same(environment) && wanted && (!focus.problems || row.rules.len() > 0);
        proof {
            assert(rs[i as int] == row@);
            assert(keep == kept(env, fo, rs[i as int]));
            lemma_lit_step(rs, env, fo, i as int);
        }
        if keep {
            insert_sorted_unique(&mut connections, &row.id);
            add_all(&mut shapes, &row.subjects);
        }
        i += 1;
    }
    assert(rs.take(i as int) =~= rs);
    proof {
        crate::logical::lemma_first_index(environment_ids(project@), env);
    }
    match project.environment(environment) {
        Some(e) => {
            let _ = light_forest_exec(&e.nodes, &mut shapes);
        },
        None => {},
    }
    Highlight { shapes, connections }
}

/// One relationship offered in the filter panel.
#[derive(Debug, Clone, PartialEq, Eq)]
pub struct Contract {
    pub relationship: Id,
    pub label: String,
    /// How many connections of the environment serve it; 0 means it is not realised here.
    pub connections: u32,
    /// Whether lint complained about any of those connections.
    pub problems: bool,
}

pub struct ContractView {
    pub relationship: Seq<char>,
    pub label: Seq<char>,
    pub connections: u32,
    pub problems: bool,
}

impl View for Contract {
    type V = ContractView;

    open spec fn view(&self) -> ContractView {
        ContractView { relationship: self.relationship@, label: self.label@, connections: self.connections, problems: self.problems }
    }
}

pub open spec fn serving_rows(rs: Seq<RowView>, env: Seq<char>, rel: Seq<char>) -> Seq<RowView> {
    rs.filter(|r: RowView| r.environment == env && r.serves == rel)
}

/// The entry of one relationship: how many rows of the environment serve it (kept to
/// 32 bits as a `u32` keeps a count) and whether any of them has a rule.
pub open spec fn contract_of(rs: Seq<RowView>, env: Seq<char>, rel: RelationshipView) -> ContractView {
    let s = serving_rows(rs, env, rel.id);
    ContractView {
        relationship: rel.id,
        label: rel.slug,
        connections: s.len() as u32,
        problems: exists|k: int| 0 <= k < s.len() && s[k].rules.len() > 0,
    }
}

/// Every relationship of the logical layer, in order, with its connections here. Those
/// with none stay in the list: an unrealised relationship is what most needs seeing.
pub open spec fn contracts_spec(p: ProjectView, env: Seq<char>) -> Seq<ContractView> {
    p.logical.relationships.map_values(|rel: RelationshipView| contract_of(rows_spec(p), env, rel))
}

pub open spec fn contracts_view(s: Seq<Contract>) -> Seq<ContractView> {
    s.map_values(|c: Contract| c@)
}

fn count_serving(all: &Vec<Row>, env: &Id, rel: &Id) -> (r: (usize, bool))
    ensures
        r.0 == serving_rows(rows_view(all@), env@, rel@).len(),
        r.1 == (exists|k: int| 0 <= k < serving_rows(rows_view(all@), env@, rel@).len()
            && serving_rows(rows_view(all@), env@, rel@)[k].rules.len() > 0),
{
    let ghost rs = rows_view(all@);
    let ghost pr = |r: RowView| r.environment == env@ && r.serves == rel@;
    let mut n: usize = 0;
    let mut bad = false;
    let mut i: usize = 0;
    while i < all.len()
        invariant
            i <= all@.len(),
            rs == rows_view(all@),
            pr == (|r: RowView| r.environment == env@ && r.serves == rel@),
            n == rs.take(i as int).filter(pr).len(),
            n <= i,
            bad == (exists|k: int| 0 <= k < rs.take(i as int).filter(pr).len() && rs.take(i as int).filter(pr)[k].rules.len() > 0),
        decreases all.len() - i,
    {
        let row = &all[i];
        proof {
            assert(rs[i as int] == row@);
            assert(rs.take(i + 1).drop_last() =~= rs.take(i as int));
            reveal(Seq::filter);
        }
        if row.environment.same(env) && row.serves.same(rel) {
            proof {
                let f0 = rs.take(i as int).filter(pr);
                let f1 = rs.take(i + 1).filter(pr);
                assert(f1 == f0.push(rs[i as int]));
                assert forall|k: int| 0 <= k < f0.len() implies f1[k] == f0[k] by {}
                if bad {
                    let k = choose|k: int| 0 <= k < f0.len() && f0[k].rules.len() > 0;
                    assert(f1[k] == f0[k]);
                }
                if row.rules.len() > 0 {
                    assert(f1[f0.len() as int] == rs[i as int]);
                }
                if exists|k: int| 0 <= k < f1.len() && f1[k].rules.len() > 0 {
                    let k = choose|k: int| 0 <= k < f1.len() && f1[k].rules.len() > 0;
                    if k < f0.len() {
                        assert(f0[k] == f1[k]);
                    }
                }
            }
            n += 1;
            if row.rules.len() > 0 {
                bad = true;
            }
        } else {
            proof {
                assert(rs.take(i + 1).filter(pr) == rs.take(i as int).filter(pr));
            }
        }
        i += 1;
    }
    assert(rs.take(i as int) =~= rs);
    (n, bad)
}

/// The relationships to offer for ticking in one environment.
pub fn contracts(project: &Project, environment: &Id) -> (r: Vec<Contract>)
    ensures
        contracts_view(r@) == contracts_spec(project@, environment@),
{
    let all = rows(project);
    let ghost rs = rows_spec(project@);
    let ghost want = contracts_spec(project@, environment@);
    let mut out: Vec<Contract> = Vec::new();
    let mut i: usize = 0;
    while i < project.logical.relationships.len()
        invariant
            i <= project.logical.relationships@.len(),
            rows_view(all@) == rs,
            rs == rows_spec(project@),
            want == contracts_spec(project@, environment@),
            contracts_view(out@) == want.take(i as int),
        decreases project.logical.relationships.len() - i,
    {
        let rel = &project.logical.relationships[i];
        let (n, bad) = count_serving(&all, environment, &rel.id);
        let c = Contract { relationship: rel.id.copy(), label: rel.slug.clone(), connections: n as u32, problems: bad };
        let ghost before = out@;
        out.push(c);
        proof {
            assert(project@.logical.relationships[i as int] == rel@);
            assert(want[i as int] == contract_of(rs, environment@, rel@));
            assert(contracts_view(out@) =~= contracts_view(before).push(want[i as int]));
            assert(want.take(i + 1) =~= want.take(i as int).push(want[i as int]));
        }
        i += 1;
    }
    assert(want.take(i as int) =~= want);
    out
}

/// How many shapes a node and everything below it draw: itself, its instances, and
/// its children's.
pub open spec fn tree_shapes(n: DeploymentNodeView) -> nat
    decreases n,
{
    1 + n.instances.len() + forest_shapes(n.children)
}

pub open spec fn forest_shapes(s: Seq<DeploymentNodeView>) -> nat
    decreases s,
{
    if s.len() == 0 {
        0
    } else {
        forest_shapes(s.drop_last()) + tree_shapes(s.last())
    }
}

/// Every shape of an environment: nodes and instances at any depth, devices, landings.
pub open spec fn shape_total(e: EnvironmentView) -> nat {
    forest_shapes(e.nodes) + e.infra.len() + e.systems.len()
}

proof fn lemma_forest_prefix(s: Seq<DeploymentNodeView>, i: int)
    requires
        0 <= i <= s.len(),
    ensures
        forest_shapes(s.take(i)) <= forest_shapes(s),
    decreases s.len() - i,
{
    if i < s.len() {
        lemma_forest_prefix(s, i + 1);
        assert(s.take(i + 1).drop_last() =~= s.take(i));
    } else {
        assert(s.take(i) =~= s);
    }
}

fn walk(nodes: &Vec<DeploymentNode>) -> (r: u32)
    requires
        forest_shapes(nodes_view(nodes@)) <= u32::MAX,
    ensures
        r == forest_shapes(nodes_view(nodes@)),
    decreases nodes@,
{
    let ghost s = nodes_view(nodes@);
    let mut total: u32 = 0;
    let mut i: usize = 0;
    while i < nodes.len()
        invariant
            i <= nodes@.len(),
            s == nodes_view(nodes@),
            forest_shapes(s) <= u32::MAX,
            total == forest_shapes(s.take(i as int)),
        decreases nodes.len() - i,
    {
        let node = &nodes[i];
        proof {
            lemma_children_view(*node);
            assert(s.take(i + 1).drop_last() =~= s.take(i as int));
            assert(s.take(i + 1).last() == node@);
            lemma_forest_prefix(s, i + 1);
            assert(forest_shapes(s.take(i + 1)) == forest_shapes(s.take(i as int)) + tree_shapes(node@));
            assert(tree_shapes(node@) == 1 + node@.instances.len() + forest_shapes(nodes_view(node.children@)));
            assert(node@.instances.len() == node.instances@.len());
            assert(decreases_to!(nodes@ => node));
        }
        let below = walk(&node.children);
        total = total + 1 + node.instances.len() as u32 + below;
        i += 1;
    }
    assert(s.take(i as int) =~= s);
    total
}

/// How many shapes the environment's diagram has in all: the denominator of "lit / all".
pub fn shape_count(env: &Environment) -> (r: u32)
    requires
        shape_total(env@) <= u32::MAX,
    ensures
        r == shape_total(env@),
{
    let n = walk(&env.nodes);
    n + env.infra.len() as u32 + env.systems.len() as u32
}

} // verus!
