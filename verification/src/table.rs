//! The connection table: the actual connections of an environment, one row each.
//!
//! The from and to columns are not bare ids: `redis-*` expands to the machines it
//! reaches now and addresses come from the matching endpoints, the same expansion lint
//! uses. The status of a row is what lint says of it, not a judgement of its own.

use vstd::prelude::*;
use crate::{Project, ProjectView, environment_ids};
use crate::environment::{Connection, ConnectionKind, ConnectionView, ContainerInstance, ContainerInstanceView,
    DeploymentNode, DeploymentNodeView, Endpoint, EndpointView, Endpointing, EndpointingView, Environment,
    EnvironmentView, InstanceRef, InstanceRefView, env_instances, endpoints_view, instance_ids, instance_refs_view,
    infra_ids, system_instance_ids, nodes_view, lemma_children_view, opt_text_view};
use crate::id::Id;
use crate::index::{EnvIndex, matching};
use crate::lint::{Finding, FindingView, Rule, Severity, findings_view, lint, lint_raw, person_name, rule_severity};
use crate::logical::{Logical, LogicalView, first_index, first_match, lemma_first_index, lemma_first_index_unique,
    lemma_first_match, lemma_first_match_unique, relationship_ids};
use crate::order::{seq_lt, text_lt};
use crate::reconcile::last_index;
use crate::wiring::ends_spec;

verus! {

/// What one end of a connection points at; shown with different icons.
#[derive(Debug, Clone, Copy, PartialEq, Eq, Structural)]
pub enum SideKind {
    /// One or a group of service landings.
    Instance,
    /// A device such as an F5.
    Infra,
    /// An external system's landing.
    System,
    /// A person. Only ever a source.
    Person,
}

/// One end of a connection, resolved into something readable.
#[derive(Debug, Clone, PartialEq, Eq)]
pub struct Side {
    pub kind: SideKind,
    /// The name shown. A wildcard is kept as written (`redis-*`) so that it reads as a group.
    pub label: String,
    /// The endpoint's name. A source may have none (the OS picks the port).
    pub endpoint: Option<String>,
    /// The actual addresses; a wildcard has several.
    pub addresses: Vec<String>,
    /// How many a wildcard expands to; 1 otherwise (0 when the target is missing).
    pub matched: u32,
    /// The expected count, where one was written.
    pub expect: Option<u32>,
}

pub struct SideView {
    pub kind: SideKind,
    pub label: Seq<char>,
    pub endpoint: Option<Seq<char>>,
    pub addresses: Seq<Seq<char>>,
    pub matched: u32,
    pub expect: Option<u32>,
}

pub open spec fn texts_view(s: Seq<String>) -> Seq<Seq<char>> {
    s.map_values(|x: String| x@)
}

impl View for Side {
    type V = SideView;

    open spec fn view(&self) -> SideView {
        SideView {
            kind: self.kind,
            label: self.label@,
            endpoint: opt_text_view(self.endpoint),
            addresses: texts_view(self.addresses@),
            matched: self.matched,
            expect: self.expect,
        }
    }
}

/// One row of the table.
#[derive(Debug, Clone, PartialEq, Eq)]
pub struct Row {
    pub id: Id,
    pub environment: Id,
    /// The relationship it serves.
    pub serves: Id,
    /// That relationship's name; `None` when there is none (which is L003 itself).
    pub serves_slug: Option<String>,
    pub purpose: String,
    /// The usual path or a fallback.
    pub kind: ConnectionKind,
    pub from: Side,
    pub to: Side,
    /// The worst severity among the row's rules; `None` when lint has nothing to say.
    pub severity: Option<Severity>,
    /// The rules lint raised on this connection, each once, in the order of the rules.
    pub rules: Vec<Rule>,
    /// The shapes the connection involves: what its start reaches, then what its end
    /// reaches.
    pub subjects: Vec<Id>,
}

pub struct RowView {
    pub id: Seq<char>,
    pub environment: Seq<char>,
    pub serves: Seq<char>,
    pub serves_slug: Option<Seq<char>>,
    pub purpose: Seq<char>,
    pub kind: ConnectionKind,
    pub from: SideView,
    pub to: SideView,
    pub severity: Option<Severity>,
    pub rules: Seq<Rule>,
    pub subjects: Seq<Seq<char>>,
}

impl View for Row {
    type V = RowView;

    open spec fn view(&self) -> RowView {
        RowView {
            id: self.id@,
            environment: self.environment@,
            serves: self.serves@,
            serves_slug: opt_text_view(self.serves_slug),
            purpose: self.purpose@,
            kind: self.kind,
            from: self.from@,
            to: self.to@,
            severity: self.severity,
            rules: self.rules@,
            subjects: crate::order::ids_view(self.subjects@),
        }
    }
}

pub open spec fn rows_view(s: Seq<Row>) -> Seq<RowView> {
    s.map_values(|r: Row| r@)
}

// ---- the sides ----

pub open spec fn realises(d: Seq<char>) -> spec_fn(EndpointView) -> bool {
    |e: EndpointView| e.def == Some(d)
}

pub open spec fn named(id: Seq<char>) -> spec_fn(EndpointView) -> bool {
    |e: EndpointView| e.id == id
}

/// The first endpoint that realises the definition named, if a definition is named.
pub open spec fn def_endpoint(eps: Seq<EndpointView>, endpoint: Option<Seq<char>>) -> Option<EndpointView> {
    match endpoint {
        Some(d) => match first_match(eps, realises(d)) {
            Some(k) => Some(eps[k]),
            None => None,
        },
        None => None,
    }
}

pub open spec fn slug_of(ep: Option<EndpointView>) -> Option<Seq<char>> {
    match ep {
        Some(x) => Some(x.slug),
        None => None,
    }
}

/// The address of an endpoint, as a list of none or one.
pub open spec fn address_list(ep: Option<EndpointView>) -> Seq<Seq<char>> {
    match ep {
        Some(x) => match x.address {
            Some(a) => seq![a],
            None => seq![],
        },
        None => seq![],
    }
}

pub open spec fn pattern_addresses(ms: Seq<ContainerInstanceView>, endpoint: Option<Seq<char>>) -> Seq<Seq<char>>
    decreases ms.len(),
{
    if ms.len() == 0 {
        seq![]
    } else {
        pattern_addresses(ms.drop_last(), endpoint) + address_list(def_endpoint(ms.last().endpoints, endpoint))
    }
}

/// Each node of a forest with its slug, depth first.
pub open spec fn tree_entries(n: DeploymentNodeView) -> Seq<(Seq<char>, Seq<char>)>
    decreases n,
{
    seq![(n.id, n.slug)] + forest_entries(n.children)
}

pub open spec fn forest_entries(s: Seq<DeploymentNodeView>) -> Seq<(Seq<char>, Seq<char>)>
    decreases s,
{
    if s.len() == 0 {
        seq![]
    } else {
        forest_entries(s.drop_last()) + tree_entries(s.last())
    }
}

pub open spec fn entry_ids(s: Seq<(Seq<char>, Seq<char>)>) -> Seq<Seq<char>> {
    s.map_values(|x: (Seq<char>, Seq<char>)| x.0)
}

/// A deployment node's name: the slug of the first node with this id, depth first, or
/// the id itself when there is none.
pub open spec fn node_name(e: EnvironmentView, id: Seq<char>) -> Seq<char> {
    let s = forest_entries(e.nodes);
    match first_index(entry_ids(s), id) {
        Some(k) => s[k].1,
        None => id,
    }
}

/// One end of a connection, resolved.
pub open spec fn side_spec(l: LogicalView, e: EnvironmentView, side: EndpointingView) -> SideView {
    match side {
        EndpointingView::Instance { target, endpoint } => match target {
            InstanceRefView::One(id) => match last_index(instance_ids(env_instances(e)), id) {
                Some(k) => {
                    let ep = def_endpoint(env_instances(e)[k].endpoints, endpoint);
                    SideView {
                        kind: SideKind::Instance,
                        label: env_instances(e)[k].slug,
                        endpoint: slug_of(ep),
                        addresses: address_list(ep),
                        matched: 1,
                        expect: None,
                    }
                },
                None => SideView { kind: SideKind::Instance, label: id, endpoint: None, addresses: seq![], matched: 0, expect: None },
            },
            InstanceRefView::Pattern { slug_pattern, within, expect } => {
                let ms = matching(e, slug_pattern, within);
                SideView {
                    kind: SideKind::Instance,
                    label: match within {
                        Some(n) => slug_pattern + " @ "@ + node_name(e, n),
                        None => slug_pattern,
                    },
                    endpoint: if ms.len() > 0 { slug_of(def_endpoint(ms[0].endpoints, endpoint)) } else { None },
                    addresses: pattern_addresses(ms, endpoint),
                    matched: ms.len() as u32,
                    expect,
                }
            },
        },
        EndpointingView::Infra { node, endpoint } => match first_index(infra_ids(e), node) {
            Some(k) => {
                let ep = match endpoint {
                    Some(w) => match first_match(e.infra[k].endpoints, named(w)) {
                        Some(j) => Some(e.infra[k].endpoints[j]),
                        None => None,
                    },
                    None => None,
                };
                SideView {
                    kind: SideKind::Infra,
                    label: e.infra[k].slug,
                    endpoint: slug_of(ep),
                    addresses: address_list(ep),
                    matched: 1,
                    expect: None,
                }
            },
            None => SideView { kind: SideKind::Infra, label: node, endpoint: None, addresses: seq![], matched: 0, expect: None },
        },
        EndpointingView::Person { person } => SideView {
            kind: SideKind::Person,
            label: person_name(l, person),
            endpoint: None,
            addresses: seq![],
            matched: 1,
            expect: None,
        },
        EndpointingView::System { instance, endpoint } => match first_index(system_instance_ids(e), instance) {
            Some(k) => {
                let ep = def_endpoint(e.systems[k].endpoints, endpoint);
                SideView {
                    kind: SideKind::System,
                    label: e.systems[k].slug,
                    endpoint: slug_of(ep),
                    addresses: address_list(ep),
                    matched: 1,
                    expect: None,
                }
            },
            None => SideView { kind: SideKind::System, label: instance, endpoint: None, addresses: seq![], matched: 0, expect: None },
        },
    }
}

// ---- rules and severity ----

/// Every rule, in order.
pub open spec fn all_rules() -> Seq<Rule> {
    seq![Rule::L001, Rule::L002, Rule::L003, Rule::L004, Rule::L005, Rule::L006, Rule::L007, Rule::L008,
        Rule::L012, Rule::L013, Rule::L014]
}

/// Whether lint raises this rule on this subject in this environment.
pub open spec fn flagged(p: ProjectView, env: Seq<char>, subject: Seq<char>, r: Rule) -> bool {
    exists|k: int| 0 <= k < lint_raw(p).len() && {
        let f = #[trigger] lint_raw(p)[k];
        f.environment == Some(env) && f.subject == subject && f.rule == r
    }
}

pub open spec fn flagged_fn(p: ProjectView, env: Seq<char>, subject: Seq<char>) -> spec_fn(Rule) -> bool {
    |r: Rule| flagged(p, env, subject, r)
}

/// The rules lint raises on a subject in an environment, each once, in rule order.
pub open spec fn row_rules(p: ProjectView, env: Seq<char>, subject: Seq<char>) -> Seq<Rule> {
    all_rules().filter(flagged_fn(p, env, subject))
}

pub open spec fn severity_rank(s: Severity) -> int {
    match s {
        Severity::Info => 0,
        Severity::Warning => 1,
        Severity::Error => 2,
    }
}

/// The worst severity among the rules; `None` for no rule.
pub open spec fn worst(rules: Seq<Rule>) -> Option<Severity>
    decreases rules.len(),
{
    if rules.len() == 0 {
        None
    } else {
        let s = rule_severity(rules.last());
        match worst(rules.drop_last()) {
            Some(w) => if severity_rank(s) > severity_rank(w) { Some(s) } else { Some(w) },
            None => Some(s),
        }
    }
}

pub open spec fn subjects_of(e: EnvironmentView, c: ConnectionView) -> Seq<Seq<char>> {
    ends_spec(e, c.from).map_values(|x: (Seq<char>, bool)| x.0) + ends_spec(e, c.to).map_values(|x: (Seq<char>, bool)| x.0)
}

pub open spec fn serves_slug_of(l: LogicalView, serves: Seq<char>) -> Option<Seq<char>> {
    match first_index(relationship_ids(l), serves) {
        Some(k) => Some(l.relationships[k].slug),
        None => None,
    }
}

/// The row of one connection.
pub open spec fn row_spec(p: ProjectView, e: EnvironmentView, c: ConnectionView) -> RowView {
    let rules = row_rules(p, e.id, c.id);
    RowView {
        id: c.id,
        environment: e.id,
        serves: c.serves,
        serves_slug: serves_slug_of(p.logical, c.serves),
        purpose: c.purpose,
        kind: c.kind,
        from: side_spec(p.logical, e, c.from),
        to: side_spec(p.logical, e, c.to),
        severity: worst(rules),
        rules,
        subjects: subjects_of(e, c),
    }
}

pub open spec fn env_rows(p: ProjectView, e: EnvironmentView) -> Seq<RowView> {
    e.connections.map_values(|c: ConnectionView| row_spec(p, e, c))
}

pub open spec fn all_rows(p: ProjectView, es: Seq<EnvironmentView>) -> Seq<RowView>
    decreases es.len(),
{
    if es.len() == 0 {
        seq![]
    } else {
        all_rows(p, es.drop_last()) + env_rows(p, es.last())
    }
}

// ---- the order of rows ----

/// Rows are ordered by environment (the place of the first environment with its id),
/// then by relationship id, then by id.
pub open spec fn row_lt(p: ProjectView, a: RowView, b: RowView) -> bool {
    let pa = first_index(environment_ids(p), a.environment);
    let pb = first_index(environment_ids(p), b.environment);
    if pa != pb {
        match (pa, pb) {
            (None, Some(_)) => true,
            (Some(x), Some(y)) => x < y,
            _ => false,
        }
    } else if a.serves != b.serves {
        seq_lt(a.serves, b.serves)
    } else {
        seq_lt(a.id, b.id)
    }
}

pub open spec fn insert_row(p: ProjectView, s: Seq<RowView>, x: RowView) -> Seq<RowView>
    decreases s.len(),
{
    if s.len() == 0 {
        seq![x]
    } else if row_lt(p, x, s.last()) {
        insert_row(p, s.drop_last(), x).push(s.last())
    } else {
        s.push(x)
    }
}

/// A stable sort of rows.
pub open spec fn sort_rows(p: ProjectView, s: Seq<RowView>) -> Seq<RowView>
    decreases s.len(),
{
    if s.len() == 0 {
        seq![]
    } else {
        insert_row(p, sort_rows(p, s.drop_last()), s.last())
    }
}

/// The rows of every environment, ordered by environment, relationship and id.
pub open spec fn rows_spec(p: ProjectView) -> Seq<RowView> {
    sort_rows(p, all_rows(p, p.environments))
}


// ---- computing ----

fn first_realising<'a>(eps: &'a Vec<Endpoint>, d: &Id) -> (r: Option<&'a Endpoint>)
    ensures
        match first_match(endpoints_view(eps@), realises(d@)) {
            Some(k) => r matches Some(x) && x@ == endpoints_view(eps@)[k],
            None => r is None,
        },
{
    let ghost v = endpoints_view(eps@);
    proof {
        lemma_first_match(v, realises(d@));
    }
    let mut i: usize = 0;
    while i < eps.len()
        invariant
            i <= eps@.len(),
            v == endpoints_view(eps@),
            forall|j: int| 0 <= j < i ==> !(realises(d@))(#[trigger] v[j]),
        decreases eps.len() - i,
    {
        let hit = match &eps[i].def {
            Some(x) => x.same(d),
            None => false,
        };
        assert(v[i as int] == eps@[i as int]@);
        if hit {
            proof {
                lemma_first_match_unique(v, realises(d@), i as int);
            }
            return Some(&eps[i]);
        }
        i += 1;
    }
    None
}

fn first_named<'a>(eps: &'a Vec<Endpoint>, id: &Id) -> (r: Option<&'a Endpoint>)
    ensures
        match first_match(endpoints_view(eps@), named(id@)) {
            Some(k) => r matches Some(x) && x@ == endpoints_view(eps@)[k],
            None => r is None,
        },
{
    let ghost v = endpoints_view(eps@);
    proof {
        lemma_first_match(v, named(id@));
    }
    let mut i: usize = 0;
    while i < eps.len()
        invariant
            i <= eps@.len(),
            v == endpoints_view(eps@),
            forall|j: int| 0 <= j < i ==> !(named(id@))(#[trigger] v[j]),
        decreases eps.len() - i,
    {
        assert(v[i as int] == eps@[i as int]@);
        if eps[i].id.same(id) {
            proof {
                lemma_first_match_unique(v, named(id@), i as int);
            }
            return Some(&eps[i]);
        }
        i += 1;
    }
    None
}

pub open spec fn opt_endpoint_view(o: Option<&Endpoint>) -> Option<EndpointView> {
    match o {
        Some(x) => Some(x@),
        None => None,
    }
}

fn realising<'a>(eps: &'a Vec<Endpoint>, endpoint: &Option<Id>) -> (r: Option<&'a Endpoint>)
    ensures
        opt_endpoint_view(r) == def_endpoint(endpoints_view(eps@), crate::environment::opt_id_view(*endpoint)),
{
    match endpoint {
        Some(d) => first_realising(eps, d),
        None => None,
    }
}

fn slug_text(ep: Option<&Endpoint>) -> (r: Option<String>)
    ensures
        opt_text_view(r) == slug_of(opt_endpoint_view(ep)),
{
    match ep {
        Some(x) => Some(x.slug.clone()),
        None => None,
    }
}

fn addresses_of(ep: Option<&Endpoint>) -> (r: Vec<String>)
    ensures
        texts_view(r@) == address_list(opt_endpoint_view(ep)),
{
    let mut v: Vec<String> = Vec::new();
    match ep {
        Some(x) => match &x.address {
            Some(a) => {
                v.push(a.clone());
                assert(texts_view(v@) =~= seq![a@]);
            },
            None => {
                assert(texts_view(v@) =~= Seq::<Seq<char>>::empty());
            },
        },
        None => {
            assert(texts_view(v@) =~= Seq::<Seq<char>>::empty());
        },
    }
    v
}

pub open spec fn entries_view(s: Seq<(Id, String)>) -> Seq<(Seq<char>, Seq<char>)> {
    s.map_values(|x: (Id, String)| (x.0@, x.1@))
}

pub(crate) fn collect_entries(nodes: &Vec<DeploymentNode>, out: &mut Vec<(Id, String)>)
    ensures
        entries_view(final(out)@) == entries_view(old(out)@) + forest_entries(nodes_view(nodes@)),
    decreases nodes@,
{
    let ghost start = entries_view(out@);
    let mut i: usize = 0;
    while i < nodes.len()
        invariant
            i <= nodes@.len(),
            entries_view(out@) == start + forest_entries(nodes_view(nodes@).take(i as int)),
        decreases nodes.len() - i,
    {
        let n = &nodes[i];
        let ghost before = entries_view(out@);
        out.push((n.id.copy(), n.slug.clone()));
        proof {
            lemma_children_view(*n);
            assert(entries_view(out@) =~= before + seq![(n@.id, n@.slug)]);
            assert(decreases_to!(nodes@ => n));
        }
        collect_entries(&n.children, out);
        proof {
            let s = nodes_view(nodes@);
            assert(s.take(i + 1).drop_last() =~= s.take(i as int));
            assert(s.take(i + 1).last() == n@);
            assert(forest_entries(s.take(i + 1)) == forest_entries(s.take(i as int)) + tree_entries(n@));
            assert(tree_entries(n@) == seq![(n@.id, n@.slug)] + forest_entries(nodes_view(n.children@)));
            assert(entries_view(out@) =~= start + forest_entries(s.take(i + 1)));
        }
        i += 1;
    }
    assert(nodes_view(nodes@).take(i as int) =~= nodes_view(nodes@));
}

fn node_name_of(e: &Environment, id: &Id) -> (r: String)
    ensures
        r@ == node_name(e@, id@),
{
    let mut entries: Vec<(Id, String)> = Vec::new();
    collect_entries(&e.nodes, &mut entries);
    assert(entries_view(entries@) =~= forest_entries(e@.nodes));
    let ghost s = forest_entries(e@.nodes);
    let ghost ids = entry_ids(s);
    proof {
        lemma_first_index(ids, id@);
    }
    let mut i: usize = 0;
    while i < entries.len()
        invariant
            i <= entries@.len(),
            entries_view(entries@) == s,
            s == forest_entries(e@.nodes),
            ids == entry_ids(s),
            forall|j: int| 0 <= j < i ==> ids[j] != id@,
        decreases entries.len() - i,
    {
        assert(ids[i as int] == entries@[i as int].0@);
        if entries[i].0.same(id) {
            proof {
                lemma_first_index_unique(ids, id@, i as int);
            }
            return entries[i].1.clone();
        }
        i += 1;
    }
    id.to_text()
}

fn pattern_addresses_of(ms: &Vec<&ContainerInstance>, endpoint: &Option<Id>) -> (r: Vec<String>)
    ensures
        texts_view(r@) == pattern_addresses(instance_refs_view(ms@), crate::environment::opt_id_view(*endpoint)),
{
    let ghost s = instance_refs_view(ms@);
    let ghost d = crate::environment::opt_id_view(*endpoint);
    let mut out: Vec<String> = Vec::new();
    let mut i: usize = 0;
    while i < ms.len()
        invariant
            i <= ms@.len(),
            s == instance_refs_view(ms@),
            d == crate::environment::opt_id_view(*endpoint),
            texts_view(out@) == pattern_addresses(s.take(i as int), d),
        decreases ms.len() - i,
    {
        let found = realising(&ms[i].endpoints, endpoint);
        let more = addresses_of(found);
        let ghost before = texts_view(out@);
        let mut k: usize = 0;
        while k < more.len()
            invariant
                k <= more@.len(),
                texts_view(out@) == before + texts_view(more@).take(k as int),
            decreases more.len() - k,
        {
            let ghost b2 = out@;
            out.push(more[k].clone());
            proof {
                assert(texts_view(out@) =~= texts_view(b2).push(more@[k as int]@));
                assert(texts_view(more@).take(k + 1) =~= texts_view(more@).take(k as int).push(more@[k as int]@));
            }
            k += 1;
        }
        proof {
            assert(texts_view(more@).take(k as int) =~= texts_view(more@));
            assert(s[i as int] == ms@[i as int]@);
            assert(s.take(i + 1).drop_last() =~= s.take(i as int));
            assert(s.take(i + 1).last() == s[i as int]);
            assert(texts_view(out@) =~= pattern_addresses(s.take(i + 1), d));
        }
        i += 1;
    }
    assert(s.take(i as int) =~= s);
    out
}

fn first_person_slug(l: &Logical, id: &Id) -> (r: String)
    ensures
        r@ == person_name(l@, id@),
{
    let ghost ids = crate::logical::person_ids(l@);
    proof {
        lemma_first_index(ids, id@);
    }
    let mut i: usize = 0;
    while i < l.people.len()
        invariant
            i <= l.people@.len(),
            ids == crate::logical::person_ids(l@),
            forall|j: int| 0 <= j < i ==> ids[j] != id@,
        decreases l.people.len() - i,
    {
        assert(ids[i as int] == l.people@[i as int].id@);
        if l.people[i].id.same(id) {
            proof {
                lemma_first_index_unique(ids, id@, i as int);
            }
            return l.people[i].slug.clone();
        }
        i += 1;
    }
    id.to_text()
}

#[verifier::rlimit(40)]
fn resolve_side(index: &EnvIndex, e: &Environment, l: &Logical, side: &Endpointing) -> (r: Side)
    requires
        index.env_view() == e@,
    ensures
        r@ == side_spec(l@, e@, side@),
{
    match side {
        Endpointing::Instance { target, endpoint } => match target {
            InstanceRef::One(id) => match index.instance(id) {
                Some(found) => {
                    let ep = realising(&found.endpoints, endpoint);
                    Side {
                        kind: SideKind::Instance,
                        label: found.slug.clone(),
                        endpoint: slug_text(ep),
                        addresses: addresses_of(ep),
                        matched: 1,
                        expect: None,
                    }
                },
                None => {
                    let v: Vec<String> = Vec::new();
                    assert(texts_view(v@) =~= Seq::<Seq<char>>::empty());
                    Side { kind: SideKind::Instance, label: id.to_text(), endpoint: None, addresses: v, matched: 0, expect: None }
                },
            },
            InstanceRef::Pattern { slug_pattern, within, expect } => {
                let ms = index.matching_within(slug_pattern.as_str(), within.as_ref());
                let addresses = pattern_addresses_of(&ms, endpoint);
                let ep = if ms.len() > 0 {
                    slug_text(realising(&ms[0].endpoints, endpoint))
                } else {
                    None
                };
                let label = match within {
                    Some(node) => {
                        let mut t = slug_pattern.clone();
                        t.append(" @ ");
                        let name = node_name_of(e, node);
                        t.append(name.as_str());
                        t
                    },
                    None => slug_pattern.clone(),
                };
                Side {
                    kind: SideKind::Instance,
                    label,
                    endpoint: ep,
                    addresses,
                    matched: ms.len() as u32,
                    expect: *expect,
                }
            },
        },
        Endpointing::Infra { node, endpoint } => match e.infra_node(node) {
            Some(found) => {
                let ep = match endpoint {
                    Some(w) => first_named(&found.endpoints, w),
                    None => None,
                };
                Side {
                    kind: SideKind::Infra,
                    label: found.slug.clone(),
                    endpoint: slug_text(ep),
                    addresses: addresses_of(ep),
                    matched: 1,
                    expect: None,
                }
            },
            None => {
                let v: Vec<String> = Vec::new();
                assert(texts_view(v@) =~= Seq::<Seq<char>>::empty());
                Side { kind: SideKind::Infra, label: node.to_text(), endpoint: None, addresses: v, matched: 0, expect: None }
            },
        },
        Endpointing::Person { person } => {
            let v: Vec<String> = Vec::new();
            assert(texts_view(v@) =~= Seq::<Seq<char>>::empty());
            Side {
                kind: SideKind::Person,
                label: first_person_slug(l, person),
                endpoint: None,
                addresses: v,
                matched: 1,
                expect: None,
            }
        },
        Endpointing::System { instance, endpoint } => match e.system_instance(instance) {
            Some(found) => {
                let ep = realising(&found.endpoints, endpoint);
                Side {
                    kind: SideKind::System,
                    label: found.slug.clone(),
                    endpoint: slug_text(ep),
                    addresses: addresses_of(ep),
                    matched: 1,
                    expect: None,
                }
            },
            None => {
                let v: Vec<String> = Vec::new();
                assert(texts_view(v@) =~= Seq::<Seq<char>>::empty());
                Side { kind: SideKind::System, label: instance.to_text(), endpoint: None, addresses: v, matched: 0, expect: None }
            },
        },
    }
}

pub(crate) fn all_rules_vec() -> (r: Vec<Rule>)
    ensures
        r@ == all_rules(),
{
    let v = vec![Rule::L001, Rule::L002, Rule::L003, Rule::L004, Rule::L005, Rule::L006, Rule::L007, Rule::L008,
        Rule::L012, Rule::L013, Rule::L014];
    assert(v@ =~= all_rules());
    v
}

fn has_finding(findings: &Vec<Finding>, env: &Id, subject: &Id, rule: Rule) -> (r: bool)
    ensures
        r == (exists|k: int| 0 <= k < findings@.len() && {
            let f = #[trigger] findings@[k]@;
            f.environment == Some(env@) && f.subject == subject@ && f.rule == rule
        }),
{
    let mut i: usize = 0;
    while i < findings.len()
        invariant
            i <= findings@.len(),
            forall|j: int| 0 <= j < i ==> !({
                let f = #[trigger] findings@[j]@;
                f.environment == Some(env@) && f.subject == subject@ && f.rule == rule
            }),
        decreases findings.len() - i,
    {
        let f = &findings[i];
        let env_hit = match &f.environment {
            Some(x) => x.same(env),
            None => false,
        };
        if env_hit && f.subject.same(subject) && f.rule == rule {
            assert({
                let g = #[trigger] findings@[i as int]@;
                g.environment == Some(env@) && g.subject == subject@ && g.rule == rule
            });
            return true;
        }
        i += 1;
    }
    false
}

/// The rules raised on one subject of one environment, in rule order.
fn rules_for(p: &Project, findings: &Vec<Finding>, env: &Id, subject: &Id) -> (r: Vec<Rule>)
    requires
        findings_view(findings@).to_set() == lint_raw(p@).to_set(),
    ensures
        r@ == row_rules(p@, env@, subject@),
{
    let all = all_rules_vec();
    let ghost pr = flagged_fn(p@, env@, subject@);
    let mut out: Vec<Rule> = Vec::new();
    let mut i: usize = 0;
    while i < all.len()
        invariant
            i <= all@.len(),
            all@ == all_rules(),
            pr == flagged_fn(p@, env@, subject@),
            findings_view(findings@).to_set() == lint_raw(p@).to_set(),
            out@ == all_rules().take(i as int).filter(pr),
        decreases all.len() - i,
    {
        let rule = all[i];
        let hit = has_finding(findings, env, subject, rule);
        proof {
            let raw = lint_raw(p@);
            let fs = findings_view(findings@);
            if hit {
                let k = choose|k: int| 0 <= k < findings@.len() && {
                    let f = #[trigger] findings@[k]@;
                    f.environment == Some(env@) && f.subject == subject@ && f.rule == rule
                };
                assert(fs[k] == findings@[k]@);
                assert(fs.to_set().contains(fs[k]));
                let m = choose|m: int| 0 <= m < raw.len() && raw[m] == fs[k];
                assert(flagged(p@, env@, subject@, rule));
            } else {
                if flagged(p@, env@, subject@, rule) {
                    let m = choose|m: int| 0 <= m < raw.len() && {
                        let f = #[trigger] raw[m];
                        f.environment == Some(env@) && f.subject == subject@ && f.rule == rule
                    };
                    assert(raw.to_set().contains(raw[m]));
                    let k = choose|k: int| 0 <= k < fs.len() && fs[k] == raw[m];
                    assert(fs[k] == findings@[k]@);
                    assert(false);
                }
            }
            assert(all_rules().take(i + 1).drop_last() =~= all_rules().take(i as int));
            reveal(Seq::filter);
        }
        if hit {
            out.push(rule);
        }
        proof {
            assert(out@ =~= all_rules().take(i + 1).filter(pr));
        }
        i += 1;
    }
    assert(all_rules().take(i as int) =~= all_rules());
    out
}

pub(crate) fn severity_number(s: Severity) -> (n: u8)
    ensures
        n as int == severity_rank(s),
{
    match s {
        Severity::Info => 0,
        Severity::Warning => 1,
        Severity::Error => 2,
    }
}

pub(crate) fn worst_of(rules: &Vec<Rule>) -> (r: Option<Severity>)
    ensures
        r == worst(rules@),
{
    let mut w: Option<Severity> = None;
    let mut i: usize = 0;
    while i < rules.len()
        invariant
            i <= rules@.len(),
            w == worst(rules@.take(i as int)),
        decreases rules.len() - i,
    {
        let s = rules[i].severity();
        proof {
            assert(rules@.take(i + 1).drop_last() =~= rules@.take(i as int));
            assert(rules@.take(i + 1).last() == rules@[i as int]);
        }
        w = match w {
            Some(old) => if severity_number(s) > severity_number(old) { Some(s) } else { Some(old) },
            None => Some(s),
        };
        i += 1;
    }
    assert(rules@.take(i as int) =~= rules@);
    w
}

fn subjects(index: &EnvIndex, c: &Connection) -> (r: Vec<Id>)
    ensures
        crate::order::ids_view(r@) == subjects_of(index.env_view(), c@),
{
    let from = crate::wiring::ends(index, &c.from);
    let to = crate::wiring::ends(index, &c.to);
    let ghost a = crate::wiring::ends_view(from@).map_values(|x: (Seq<char>, bool)| x.0);
    let ghost b = crate::wiring::ends_view(to@).map_values(|x: (Seq<char>, bool)| x.0);
    let mut out: Vec<Id> = Vec::new();
    let mut i: usize = 0;
    while i < from.len()
        invariant
            i <= from@.len(),
            a == crate::wiring::ends_view(from@).map_values(|x: (Seq<char>, bool)| x.0),
            crate::order::ids_view(out@) == a.take(i as int),
        decreases from.len() - i,
    {
        let ghost before = out@;
        out.push(from[i].0.copy());
        proof {
            assert(crate::order::ids_view(out@) =~= crate::order::ids_view(before).push(from@[i as int].0@));
            assert(a.take(i + 1) =~= a.take(i as int).push(a[i as int]));
        }
        i += 1;
    }
    assert(a.take(i as int) =~= a);
    let mut j: usize = 0;
    while j < to.len()
        invariant
            j <= to@.len(),
            b == crate::wiring::ends_view(to@).map_values(|x: (Seq<char>, bool)| x.0),
            crate::order::ids_view(out@) == a + b.take(j as int),
        decreases to.len() - j,
    {
        let ghost before = out@;
        out.push(to[j].0.copy());
        proof {
            assert(crate::order::ids_view(out@) =~= crate::order::ids_view(before).push(to@[j as int].0@));
            assert(b.take(j + 1) =~= b.take(j as int).push(b[j as int]));
        }
        j += 1;
    }
    assert(b.take(j as int) =~= b);
    out
}

fn serves_slug(l: &Logical, serves: &Id) -> (r: Option<String>)
    ensures
        opt_text_view(r) == serves_slug_of(l@, serves@),
{
    match l.relationship(serves) {
        Some(rel) => Some(rel.slug.clone()),
        None => None,
    }
}

fn row_of(p: &Project, index: &EnvIndex, e: &Environment, findings: &Vec<Finding>, c: &Connection) -> (r: Row)
    requires
        index.env_view() == e@,
        findings_view(findings@).to_set() == lint_raw(p@).to_set(),
    ensures
        r@ == row_spec(p@, e@, c@),
{
    let rules = rules_for(p, findings, &e.id, &c.id);
    let severity = worst_of(&rules);
    Row {
        id: c.id.copy(),
        environment: e.id.copy(),
        serves: c.serves.copy(),
        serves_slug: serves_slug(&p.logical, &c.serves),
        purpose: c.purpose.clone(),
        kind: c.kind,
        from: resolve_side(index, e, &p.logical, &c.from),
        to: resolve_side(index, e, &p.logical, &c.to),
        severity,
        rules,
        subjects: subjects(index, c),
    }
}

fn env_position(p: &Project, id: &Id) -> (r: Option<usize>)
    ensures
        match first_index(environment_ids(p@), id@) {
            Some(k) => r matches Some(x) && x as int == k,
            None => r is None,
        },
{
    proof {
        lemma_first_index(environment_ids(p@), id@);
    }
    let mut i: usize = 0;
    while i < p.environments.len()
        invariant
            i <= p.environments@.len(),
            forall|j: int| 0 <= j < i ==> environment_ids(p@)[j] != id@,
        decreases p.environments.len() - i,
    {
        assert(environment_ids(p@)[i as int] == p.environments@[i as int].id@);
        if p.environments[i].id.same(id) {
            proof {
                lemma_first_index_unique(environment_ids(p@), id@, i as int);
            }
            return Some(i);
        }
        i += 1;
    }
    None
}

fn row_less(p: &Project, a: &Row, b: &Row) -> (r: bool)
    ensures
        r == row_lt(p@, a@, b@),
{
    let pa = env_position(p, &a.environment);
    let pb = env_position(p, &b.environment);
    let same_place = match (pa, pb) {
        (None, None) => true,
        (Some(x), Some(y)) => x == y,
        _ => false,
    };
    proof {
        let sa = first_index(environment_ids(p@), a@.environment);
        let sb = first_index(environment_ids(p@), b@.environment);
        assert(same_place == (sa == sb));
    }
    if !same_place {
        return match (pa, pb) {
            (None, Some(_)) => true,
            (Some(x), Some(y)) => x < y,
            _ => false,
        };
    }
    if !a.serves.same(&b.serves) {
        return text_lt(a.serves.as_str(), b.serves.as_str());
    }
    text_lt(a.id.as_str(), b.id.as_str())
}

fn insert_row_exec(p: &Project, v: &mut Vec<Row>, x: Row)
    ensures
        rows_view(final(v)@) == insert_row(p@, rows_view(old(v)@), x@),
{
    let ghost s0 = rows_view(v@);
    let mut i: usize = v.len();
    assert(s0.take(i as int) =~= s0);
    assert(s0.skip(i as int) =~= Seq::<RowView>::empty());
    while i > 0 && row_less(p, &x, &v[i - 1])
        invariant
            i <= v@.len(),
            rows_view(v@) == s0,
            insert_row(p@, s0, x@) == insert_row(p@, s0.take(i as int), x@) + s0.skip(i as int),
        decreases i,
    {
        proof {
            let t = s0.take(i as int);
            assert(t.last() == s0[i - 1]);
            assert(t.drop_last() =~= s0.take(i - 1));
            assert(s0.skip(i - 1) =~= seq![s0[i - 1]] + s0.skip(i as int));
            assert(insert_row(p@, t, x@) == insert_row(p@, s0.take(i - 1), x@).push(s0[i - 1]));
            assert(insert_row(p@, s0.take(i - 1), x@).push(s0[i - 1]) + s0.skip(i as int)
                =~= insert_row(p@, s0.take(i - 1), x@) + s0.skip(i - 1));
        }
        i -= 1;
    }
    let ghost xv = x@;
    v.insert(i, x);
    proof {
        let t = s0.take(i as int);
        if i > 0 {
            assert(t.last() == s0[i - 1]);
            assert(insert_row(p@, t, xv) == t.push(xv));
        } else {
            assert(t.len() == 0);
            assert(insert_row(p@, t, xv) == seq![xv]);
        }
        assert(rows_view(v@) =~= t.push(xv) + s0.skip(i as int));
    }
}

/// The rows of every connection of every environment, ordered by environment (the
/// place of the first environment with its id), then relationship id, then id.
#[verifier::rlimit(40)]
pub fn rows(project: &Project) -> (r: Vec<Row>)
    ensures
        rows_view(r@) == rows_spec(project@),
{
    let findings = lint(project);
    let ghost p = project@;
    let ghost es = project@.environments;
    let mut unsorted: Vec<Row> = Vec::new();
    let mut i: usize = 0;
    while i < project.environments.len()
        invariant
            i <= project.environments@.len(),
            p == project@,
            es == project@.environments,
            findings_view(findings@).to_set() == lint_raw(p).to_set(),
            rows_view(unsorted@) == all_rows(p, es.take(i as int)),
        decreases project.environments.len() - i,
    {
        let e = &project.environments[i];
        let index = EnvIndex::build(project, e);
        let ghost start = rows_view(unsorted@);
        let mut c: usize = 0;
        while c < e.connections.len()
            invariant
                c <= e.connections@.len(),
                index.env_view() == e@,
                findings_view(findings@).to_set() == lint_raw(p).to_set(),
                p == project@,
                rows_view(unsorted@) == start + env_rows(p, e@).take(c as int),
            decreases e.connections.len() - c,
        {
            let ghost before = unsorted@;
            let row = row_of(project, &index, e, &findings, &e.connections[c]);
            unsorted.push(row);
            proof {
                assert(e@.connections[c as int] == e.connections@[c as int]@);
                assert(env_rows(p, e@)[c as int] == row_spec(p, e@, e@.connections[c as int]));
                assert(rows_view(unsorted@) =~= rows_view(before).push(env_rows(p, e@)[c as int]));
                assert(env_rows(p, e@).take(c + 1) =~= env_rows(p, e@).take(c as int).push(env_rows(p, e@)[c as int]));
            }
            c += 1;
        }
        proof {
            assert(env_rows(p, e@).take(c as int) =~= env_rows(p, e@));
            assert(es[i as int] == e@);
            assert(es.take(i + 1).drop_last() =~= es.take(i as int));
            assert(es.take(i + 1).last() == e@);
            assert(rows_view(unsorted@) =~= all_rows(p, es.take(i + 1)));
        }
        i += 1;
    }
    assert(es.take(i as int) =~= es);
    let ghost all = rows_view(unsorted@);
    sort_all(project, unsorted, Ghost(all))
}

#[verifier::rlimit(30)]
fn sort_all(project: &Project, unsorted: Vec<Row>, Ghost(all): Ghost<Seq<RowView>>) -> (r: Vec<Row>)
    requires
        rows_view(unsorted@) == all,
    ensures
        rows_view(r@) == sort_rows(project@, all),
{
    let mut out: Vec<Row> = Vec::new();
    let mut rest = unsorted;
    let n = rest.len();
    let mut k: usize = 0;
    while rest.len() > 0
        invariant
            all.len() == n,
            k + rest@.len() == all.len(),
            rows_view(rest@) == all.skip(k as int),
            rows_view(out@) == sort_rows(project@, all.take(k as int)),
        decreases rest.len(),
    {
        let ghost before = rest@;
        let x = rest.remove(0);
        proof {
            assert(before[0] == x);
            assert(rows_view(before)[0] == x@);
            assert(all.skip(k as int)[0] == all[k as int]);
            assert(all.take(k + 1).drop_last() =~= all.take(k as int));
            assert(all.take(k + 1).last() == all[k as int]);
            assert(rest@ =~= before.subrange(1, before.len() as int));
            assert(all.skip(k as int).subrange(1, all.skip(k as int).len() as int) =~= all.skip(k + 1));
            assert(rows_view(rest@) =~= all.skip(k + 1));
        }
        insert_row_exec(project, &mut out, x);
        k += 1;
    }
    proof {
        assert(all.take(k as int) =~= all);
    }
    out
}

// ---- what a row shows of its connection ----

/// The resolved side names what one end of a connection names: the machine, infrastructure
/// node or outside system it points at (by that one's slug when the environment has one with
/// the id, else by the bare id), the person, or the pattern with its expectation.
pub open spec fn side_follows(l: LogicalView, e: EnvironmentView, end: EndpointingView, side: SideView) -> bool {
    match end {
        EndpointingView::Instance { target, endpoint: _ } => side.kind == SideKind::Instance && match target {
            InstanceRefView::One(id) => if instance_ids(env_instances(e)).contains(id) {
                side.matched == 1 && exists|m: int|
                    0 <= m < env_instances(e).len() && #[trigger] env_instances(e)[m].id == id
                        && env_instances(e)[m].slug == side.label
            } else {
                side.matched == 0 && side.label == id
            },
            InstanceRefView::Pattern { slug_pattern, within, expect } =>
                side.expect == expect && (within is None ==> side.label == slug_pattern),
        },
        EndpointingView::Infra { node, endpoint: _ } => side.kind == SideKind::Infra && if infra_ids(e).contains(node) {
            side.matched == 1 && exists|m: int|
                0 <= m < e.infra.len() && #[trigger] e.infra[m].id == node && e.infra[m].slug == side.label
        } else {
            side.matched == 0 && side.label == node
        },
        EndpointingView::Person { person } => side.kind == SideKind::Person && side.label == person_name(l, person),
        EndpointingView::System { instance, endpoint: _ } => side.kind == SideKind::System
            && if system_instance_ids(e).contains(instance) {
            side.matched == 1 && exists|m: int|
                0 <= m < e.systems.len() && #[trigger] e.systems[m].id == instance && e.systems[m].slug == side.label
        } else {
            side.matched == 0 && side.label == instance
        },
    }
}

/// A row shows this connection of this environment, the right way round.
pub open spec fn row_follows(l: LogicalView, e: EnvironmentView, c: ConnectionView, r: RowView) -> bool {
    &&& r.id == c.id
    &&& r.environment == e.id
    &&& r.serves == c.serves
    &&& r.kind == c.kind
    &&& r.purpose == c.purpose
    &&& side_follows(l, e, c.from, r.from)
    &&& side_follows(l, e, c.to, r.to)
}

proof fn lemma_side_follows(l: LogicalView, e: EnvironmentView, end: EndpointingView)
    ensures
        side_follows(l, e, end, side_spec(l, e, end)),
{
    let side = side_spec(l, e, end);
    match end {
        EndpointingView::Instance { target, endpoint: _ } => match target {
            InstanceRefView::One(id) => {
                let ids = instance_ids(env_instances(e));
                crate::reconcile::lemma_last_index(ids, id);
                match last_index(ids, id) {
                    Some(k) => {
                        assert(ids[k] == id);
                        assert(env_instances(e)[k].id == id);
                        assert(ids.contains(id));
                    },
                    None => {
                        assert(!ids.contains(id));
                    },
                }
            },
            InstanceRefView::Pattern { .. } => {},
        },
        EndpointingView::Infra { node, endpoint: _ } => {
            let ids = infra_ids(e);
            lemma_first_index(ids, node);
            match first_index(ids, node) {
                Some(k) => {
                    assert(ids[k] == node);
                    assert(e.infra[k].id == node);
                    assert(ids.contains(node));
                },
                None => {
                    assert(!ids.contains(node));
                },
            }
        },
        EndpointingView::Person { .. } => {},
        EndpointingView::System { instance, endpoint: _ } => {
            let ids = system_instance_ids(e);
            lemma_first_index(ids, instance);
            match first_index(ids, instance) {
                Some(k) => {
                    assert(ids[k] == instance);
                    assert(e.systems[k].id == instance);
                    assert(ids.contains(instance));
                },
                None => {
                    assert(!ids.contains(instance));
                },
            }
        },
    }
}

proof fn lemma_insert_row_members(p: ProjectView, s: Seq<RowView>, x: RowView, y: RowView)
    requires
        insert_row(p, s, x).contains(y),
    ensures
        y == x || s.contains(y),
    decreases s.len(),
{
    let r = insert_row(p, s, x);
    let k = choose|k: int| 0 <= k < r.len() && r[k] == y;
    if s.len() == 0 {
        assert(r[k] == x);
    } else if row_lt(p, x, s.last()) {
        let rd = insert_row(p, s.drop_last(), x);
        if k == rd.len() {
            assert(s[s.len() - 1] == y);
        } else {
            assert(rd[k] == y);
            lemma_insert_row_members(p, s.drop_last(), x, y);
            if s.drop_last().contains(y) {
                let q = choose|q: int| 0 <= q < s.drop_last().len() && s.drop_last()[q] == y;
                assert(s[q] == y);
            }
        }
    } else {
        if k < s.len() {
            assert(s[k] == y);
        }
    }
}

proof fn lemma_sort_rows_members(p: ProjectView, s: Seq<RowView>, y: RowView)
    requires
        sort_rows(p, s).contains(y),
    ensures
        s.contains(y),
    decreases s.len(),
{
    if s.len() == 0 {
        assert(sort_rows(p, s) =~= Seq::<RowView>::empty());
    } else {
        let d = s.drop_last();
        lemma_insert_row_members(p, sort_rows(p, d), s.last(), y);
        if y == s.last() {
            assert(s[s.len() - 1] == y);
        } else {
            lemma_sort_rows_members(p, d, y);
            let q = choose|q: int| 0 <= q < d.len() && d[q] == y;
            assert(s[q] == y);
        }
    }
}

proof fn lemma_all_rows_follow(p: ProjectView, es: Seq<EnvironmentView>, y: RowView)
    requires
        all_rows(p, es).contains(y),
    ensures
        exists|j: int, k: int| 0 <= j < es.len() && 0 <= k < es[j].connections.len()
            && #[trigger] row_follows(p.logical, es[j], es[j].connections[k], y),
    decreases es.len(),
{
    if es.len() == 0 {
        assert(all_rows(p, es) =~= Seq::<RowView>::empty());
    } else {
        let a = all_rows(p, es.drop_last());
        let b = env_rows(p, es.last());
        let i = choose|i: int| 0 <= i < (a + b).len() && (a + b)[i] == y;
        if i < a.len() {
            assert(a[i] == y);
            lemma_all_rows_follow(p, es.drop_last(), y);
            let (j, k) = choose|j: int, k: int| 0 <= j < es.drop_last().len() && 0 <= k < es.drop_last()[j].connections.len()
                && #[trigger] row_follows(p.logical, es.drop_last()[j], es.drop_last()[j].connections[k], y);
            assert(es.drop_last()[j] == es[j]);
            assert(row_follows(p.logical, es[j], es[j].connections[k], y));
        } else {
            let e = es.last();
            let k = i - a.len();
            assert(b[k] == y);
            let c = e.connections[k];
            assert(y == row_spec(p, e, c));
            lemma_side_follows(p.logical, e, c.from);
            lemma_side_follows(p.logical, e, c.to);
            assert(es[es.len() - 1] == e);
            assert(row_follows(p.logical, es[es.len() - 1], es[es.len() - 1].connections[k], y));
        }
    }
}

/// The row shows one connection of one of the project's environments.
pub open spec fn shows_a_connection(p: ProjectView, r: RowView) -> bool {
    exists|j: int, k: int| 0 <= j < p.environments.len() && 0 <= k < p.environments[j].connections.len()
        && #[trigger] row_follows(p.logical, p.environments[j], p.environments[j].connections[k], r)
}

/// Each row of the table is one connection of one environment shown the way round it was
/// drawn: its from column resolves the connection's from end and its to column the to end,
/// so a connection from one machine to another lists the first machine's slug as from and
/// the second's as to.
pub proof fn lemma_rows_follow_their_connection(p: ProjectView)
    ensures
        forall|i: int| 0 <= i < rows_spec(p).len() ==> #[trigger] shows_a_connection(p, rows_spec(p)[i]),
{
    assert forall|i: int| 0 <= i < rows_spec(p).len() implies #[trigger] shows_a_connection(p, rows_spec(p)[i]) by {
        let y = rows_spec(p)[i];
        assert(rows_spec(p).contains(y));
        lemma_sort_rows_members(p, all_rows(p, p.environments), y);
        lemma_all_rows_follow(p, p.environments, y);
    }
}

} // verus!
