//! The resource lists: one table per kind of resource.
//!
//! Which columns a table has is model knowledge, not layout: "how many endpoints a
//! service has, how many machines in each environment" takes a pass over the landings.
//! So this hands out cells already worked out, and the screen only draws them. Each row
//! carries its resource, the starting point of an edit form.

use vstd::prelude::*;
use crate::{Project, ProjectView};
use crate::coverage::option_lt;
use crate::duplicate::Duplicate;
use crate::environment::{ContainerInstanceView, DeploymentNode, DeploymentNodeView, Endpoint, EndpointView, Environment,
    EnvironmentView, InfrastructureNodeView, NodeKind, SoftwareSystemInstanceView, env_instances, lemma_children_view,
    nodes_view};
use crate::id::Id;
use crate::index::{EnvIndex, forest_node_ids};
use crate::lint::{Finding, Severity, findings_view, lint, lint_raw, rule_severity};
use crate::logical::{ContainerView, EndpointDefView, LogicalView, PersonView, RelationshipEndView, RelationshipView,
    SoftwareSystemView, container_ids, first_index, person_ids, system_ids};
use crate::resource::{Kind, Resource, ResourceView};
use crate::text::{decimal, decimal_text};

verus! {

/// One row of a resource table.
#[derive(Debug, Clone, PartialEq, Eq)]
pub struct ResourceRow {
    pub id: Id,
    /// The cells, in the order of the table's columns.
    pub cells: Vec<String>,
    /// How far to indent; only machines nest (site, machine, machine).
    pub depth: u32,
    /// The worst lint severity raised on this row's element, if any.
    pub severity: Option<Severity>,
    /// The starting point of an edit form.
    pub resource: Resource,
}

pub struct ResourceRowView {
    pub id: Seq<char>,
    pub cells: Seq<Seq<char>>,
    pub depth: u32,
    pub severity: Option<Severity>,
    pub resource: ResourceView,
}

pub open spec fn texts_view(s: Seq<String>) -> Seq<Seq<char>> {
    s.map_values(|x: String| x@)
}

impl View for ResourceRow {
    type V = ResourceRowView;

    open spec fn view(&self) -> ResourceRowView {
        ResourceRowView {
            id: self.id@,
            cells: texts_view(self.cells@),
            depth: self.depth,
            severity: self.severity,
            resource: self.resource@,
        }
    }
}

/// The table of one kind of resource.
#[derive(Debug, Clone, PartialEq, Eq)]
pub struct Table {
    pub kind: Kind,
    /// The tab's caption, such as 服務.
    pub title: String,
    pub columns: Vec<String>,
    pub rows: Vec<ResourceRow>,
    /// The environment the table belongs to; `None` for the logical layer's tables.
    pub environment: Option<Id>,
    /// What to say when there is no row: an empty grid looks broken.
    pub empty_hint: String,
}

pub struct TableView {
    pub kind: Kind,
    pub title: Seq<char>,
    pub columns: Seq<Seq<char>>,
    pub rows: Seq<ResourceRowView>,
    pub environment: Option<Seq<char>>,
    pub empty_hint: Seq<char>,
}

pub open spec fn rows_view(s: Seq<ResourceRow>) -> Seq<ResourceRowView> {
    s.map_values(|r: ResourceRow| r@)
}

impl View for Table {
    type V = TableView;

    open spec fn view(&self) -> TableView {
        TableView {
            kind: self.kind,
            title: self.title@,
            columns: texts_view(self.columns@),
            rows: rows_view(self.rows@),
            environment: match self.environment {
                Some(i) => Some(i@),
                None => None,
            },
            empty_hint: self.empty_hint@,
        }
    }
}

pub open spec fn tables_view(s: Seq<Table>) -> Seq<TableView> {
    s.map_values(|t: Table| t@)
}

// ---- what every table shares ----

/// Whether lint raises a finding of this severity on the element.
pub open spec fn has_severity(p: ProjectView, id: Seq<char>, s: Severity) -> bool {
    exists|k: int| 0 <= k < lint_raw(p).len() && {
        let f = #[trigger] lint_raw(p)[k];
        f.subject == id && rule_severity(f.rule) == s
    }
}

/// The worst severity lint raises on the element, in any environment.
pub open spec fn severity_of(p: ProjectView, id: Seq<char>) -> Option<Severity> {
    if has_severity(p, id, Severity::Error) {
        Some(Severity::Error)
    } else if has_severity(p, id, Severity::Warning) {
        Some(Severity::Warning)
    } else if has_severity(p, id, Severity::Info) {
        Some(Severity::Info)
    } else {
        None
    }
}

/// The texts joined with the separator between each two.
pub open spec fn join(s: Seq<Seq<char>>, sep: Seq<char>) -> Seq<char>
    decreases s.len(),
{
    if s.len() == 0 {
        seq![]
    } else if s.len() == 1 {
        s[0]
    } else {
        join(s.drop_last(), sep) + sep + s.last()
    }
}

/// A count with its unit, or a dash for none.
pub open spec fn count_cell(n: nat, unit: Seq<char>) -> Seq<char> {
    if n == 0 {
        "—"@
    } else {
        decimal(n) + unit
    }
}

/// The name of the external system with this id, or the id itself when there is none
/// (that is L012, and the user needs to see which id is broken).
pub open spec fn system_name(l: LogicalView, id: Seq<char>) -> Seq<char> {
    match first_index(system_ids(l), id) {
        Some(k) => l.systems[k].slug,
        None => id,
    }
}

pub open spec fn container_name(l: LogicalView, id: Seq<char>) -> Seq<char> {
    match first_index(container_ids(l), id) {
        Some(k) => l.containers[k].slug,
        None => id,
    }
}

pub open spec fn person_name_or_id(l: LogicalView, id: Seq<char>) -> Seq<char> {
    match first_index(person_ids(l), id) {
        Some(k) => l.people[k].slug,
        None => id,
    }
}

/// The name shown for one end of a relationship.
pub open spec fn end_name(l: LogicalView, end: RelationshipEndView) -> Seq<char> {
    match end {
        RelationshipEndView::Container(id) => container_name(l, id),
        RelationshipEndView::System(id) => system_name(l, id),
        RelationshipEndView::Person(id) => person_name_or_id(l, id),
    }
}

pub open spec fn node_kind_label(k: NodeKind) -> Seq<char> {
    match k {
        NodeKind::Site => "站點"@,
        NodeKind::Physical => "實體機"@,
        NodeKind::VirtualMachine => "VM"@,
        NodeKind::LinuxContainer => "Linux 容器"@,
    }
}

pub open spec fn row(p: ProjectView, id: Seq<char>, depth: u32, cells: Seq<Seq<char>>, resource: ResourceView) -> ResourceRowView {
    ResourceRowView { id, cells, depth, severity: severity_of(p, id), resource }
}

pub open spec fn env_slugs(p: ProjectView) -> Seq<Seq<char>> {
    p.environments.map_values(|e: EnvironmentView| e.slug)
}

// ---- the logical layer's tables ----

pub open spec fn system_row(p: ProjectView, s: SoftwareSystemView) -> ResourceRowView {
    row(p, s.id, 0, seq![
        s.slug,
        s.name,
        if s.external { "外部"@ } else { "自家"@ },
        decimal(p.logical.containers.filter(|c: ContainerView| c.system == s.id).len()),
    ], ResourceView::System(s))
}

pub open spec fn systems_table(p: ProjectView) -> TableView {
    TableView {
        kind: Kind::System,
        title: "系統"@,
        columns: seq!["名稱"@, "顯示名"@, "自家／外部"@, "服務數"@],
        rows: p.logical.systems.map_values(|s: SoftwareSystemView| system_row(p, s)),
        environment: None,
        empty_hint: "先建一個系統——服務要掛在系統底下。"@,
    }
}

/// The service's cells: its names, system, endpoints, and per environment how many
/// machines run it (what this table is most useful for: which environment is not built yet).
pub open spec fn container_row(p: ProjectView, c: ContainerView) -> ResourceRowView {
    row(p, c.id, 0, seq![
        c.slug,
        c.name,
        system_name(p.logical, c.system),
        join(c.endpoints.map_values(|d: EndpointDefView| d.slug), "、"@),
    ] + p.environments.map_values(|e: EnvironmentView|
        count_cell(env_instances(e).filter(|i: ContainerInstanceView| i.container == c.id).len(), " 台"@)),
        ResourceView::Container(c))
}

pub open spec fn containers_table(p: ProjectView) -> TableView {
    TableView {
        kind: Kind::Container,
        title: "服務"@,
        columns: seq!["名稱"@, "顯示名"@, "所屬系統"@, "接點"@] + env_slugs(p),
        rows: p.logical.containers.map_values(|c: ContainerView| container_row(p, c)),
        environment: None,
        empty_hint: "還沒有任何服務。Redis、Consul 這種會接收請求的程序都算。"@,
    }
}

pub open spec fn def_row(p: ProjectView, owner_id: Seq<char>, owner_slug: Seq<char>, d: EndpointDefView) -> ResourceRowView {
    row(p, d.id, 0, seq![owner_slug, d.slug, crate::logical::protocol_label(d.protocol)],
        ResourceView::EndpointDef { owner: owner_id, def: d })
}

pub open spec fn container_def_rows(p: ProjectView, s: Seq<ContainerView>) -> Seq<ResourceRowView>
    decreases s.len(),
{
    if s.len() == 0 {
        seq![]
    } else {
        container_def_rows(p, s.drop_last()) + s.last().endpoints.map_values(
            |d: EndpointDefView| def_row(p, s.last().id, s.last().slug, d),
        )
    }
}

pub open spec fn system_def_rows(p: ProjectView, s: Seq<SoftwareSystemView>) -> Seq<ResourceRowView>
    decreases s.len(),
{
    if s.len() == 0 {
        seq![]
    } else {
        system_def_rows(p, s.drop_last()) + s.last().endpoints.map_values(
            |d: EndpointDefView| def_row(p, s.last().id, s.last().slug, d),
        )
    }
}

/// The endpoint definitions of services and of external systems side by side ("which
/// service forgot to define its endpoint" is a question people ask).
pub open spec fn defs_table(p: ProjectView) -> TableView {
    TableView {
        kind: Kind::EndpointDef,
        title: "接點定義"@,
        columns: seq!["掛在誰身上"@, "名稱"@, "協定"@],
        rows: container_def_rows(p, p.logical.containers) + system_def_rows(p, p.logical.systems),
        environment: None,
        empty_hint: "接點定義是「這個服務怎麼被連上」。契約要指定連到哪一個。"@,
    }
}

/// A relationship's cells: its ends, purpose, and per environment how many connections
/// realise it (every environment has to).
pub open spec fn relationship_row(p: ProjectView, r: RelationshipView) -> ResourceRowView {
    row(p, r.id, 0, seq![r.slug, end_name(p.logical, r.from), end_name(p.logical, r.to), r.purpose]
        + p.environments.map_values(|e: EnvironmentView|
            count_cell(e.connections.filter(|c: crate::environment::ConnectionView| c.serves == r.id).len(), " 段"@)),
        ResourceView::Relationship(r))
}

pub open spec fn relationships_table(p: ProjectView) -> TableView {
    TableView {
        kind: Kind::Relationship,
        title: "契約"@,
        columns: seq!["名稱"@, "來源"@, "目標"@, "用途"@] + env_slugs(p),
        rows: p.logical.relationships.map_values(|r: RelationshipView| relationship_row(p, r)),
        environment: None,
        empty_hint: "契約是「誰要連誰」的母版。每個環境都必須實現，沒實現就會被 lint 抓出來。"@,
    }
}

pub open spec fn people_table(p: ProjectView) -> TableView {
    TableView {
        kind: Kind::Person,
        title: "人"@,
        columns: seq!["名稱"@, "顯示名"@],
        rows: p.logical.people.map_values(|x: PersonView| row(p, x.id, 0, seq![x.slug, x.name], ResourceView::Person(x))),
        environment: None,
        empty_hint: "「使用者連上系統」是 C4 Context 圖最前面那一段，少了它整條流量就缺頭。"@,
    }
}

pub open spec fn environment_row(p: ProjectView, e: EnvironmentView) -> ResourceRowView {
    row(p, e.id, 0, seq![
        e.slug,
        e.name,
        decimal(forest_node_ids(e.nodes).len()),
        decimal(env_instances(e).len()),
        decimal(e.connections.len()),
    ], ResourceView::Environment(e))
}

pub open spec fn environments_table(p: ProjectView) -> TableView {
    TableView {
        kind: Kind::Environment,
        title: "環境"@,
        columns: seq!["名稱"@, "顯示名"@, "機器"@, "落地"@, "連線"@],
        rows: p.environments.map_values(|e: EnvironmentView| environment_row(p, e)),
        environment: None,
        empty_hint: "至少要有一個環境，lint 才有話說——邏輯層自己不會缺什麼。"@,
    }
}

// ---- an environment's tables ----

/// A depth counted in a `u32`, held at its largest value.
pub open spec fn depth_of(d: nat) -> u32 {
    if d <= u32::MAX { d as u32 } else { u32::MAX }
}

/// The rows of a machine and of every machine below it, depth first, each indented
/// one more than its parent.
pub open spec fn tree_rows(p: ProjectView, env: Seq<char>, n: DeploymentNodeView, parent: Option<Seq<char>>, depth: nat) -> Seq<ResourceRowView>
    decreases n,
{
    seq![row(p, n.id, depth_of(depth), seq![
        n.slug,
        node_kind_label(n.kind),
        join(n.instances.map_values(|i: ContainerInstanceView| i.slug), "、"@),
    ], ResourceView::Node { environment: env, within: parent, node: n })]
        + forest_rows(p, env, n.children, Some(n.id), depth + 1)
}

pub open spec fn forest_rows(p: ProjectView, env: Seq<char>, s: Seq<DeploymentNodeView>, parent: Option<Seq<char>>, depth: nat) -> Seq<ResourceRowView>
    decreases s,
{
    if s.len() == 0 {
        seq![]
    } else {
        forest_rows(p, env, s.drop_last(), parent, depth) + tree_rows(p, env, s.last(), parent, depth)
    }
}

pub open spec fn machines_table(p: ProjectView, e: EnvironmentView) -> TableView {
    TableView {
        kind: Kind::Node,
        title: "機器"@,
        columns: seq!["名稱"@, "種類"@, "上面跑的服務"@],
        rows: forest_rows(p, e.id, e.nodes, None, 0),
        environment: Some(e.id),
        empty_hint: "站點、實體機、VM、Linux 容器都是機器。站點是拿來裝別的機器的。"@,
    }
}

pub open spec fn vip_text(ep: EndpointView) -> Seq<char> {
    ep.slug + "（"@ + match ep.address {
        Some(a) => a,
        None => "沒有位址"@,
    } + "）"@
}

pub open spec fn devices_table(p: ProjectView, e: EnvironmentView) -> TableView {
    TableView {
        kind: Kind::Infra,
        title: "設備"@,
        columns: seq!["名稱"@, "VIP"@],
        rows: e.infra.map_values(|n: InfrastructureNodeView| row(p, n.id, 0, seq![
            n.slug,
            join(n.endpoints.map_values(|ep: EndpointView| vip_text(ep)), "、"@),
        ], ResourceView::Infra { environment: e.id, node: n })),
        environment: Some(e.id),
        empty_hint: "F5 這類 VIP 設備。經過它的流量在模型裡會拆成兩段。"@,
    }
}

/// The addresses given, in order (endpoints without one are left out).
pub open spec fn given_addresses(s: Seq<EndpointView>) -> Seq<Seq<char>>
    decreases s.len(),
{
    if s.len() == 0 {
        seq![]
    } else {
        given_addresses(s.drop_last()) + match s.last().address {
            Some(a) => seq![a],
            None => seq![],
        }
    }
}

pub open spec fn landings_table(p: ProjectView, e: EnvironmentView) -> TableView {
    TableView {
        kind: Kind::SystemInstance,
        title: "外部系統落地"@,
        columns: seq!["名稱"@, "對應系統"@, "位址"@],
        rows: e.systems.map_values(|s: SoftwareSystemInstanceView| row(p, s.id, 0, seq![
            s.slug,
            system_name(p.logical, s.system),
            join(given_addresses(s.endpoints), "、"@),
        ], ResourceView::SystemInstance { environment: e.id, instance: s })),
        environment: Some(e.id),
        empty_hint: "金流之類的外部系統在這個環境打哪個位址。那些機器不是我們的，所以不放在機器底下。"@,
    }
}

/// Every table of the logical layer, then, for an environment of the project, its
/// machines, devices and external-system landings.
pub open spec fn tables_spec(p: ProjectView, environment: Option<Seq<char>>) -> Seq<TableView> {
    let logical = seq![systems_table(p), containers_table(p), defs_table(p), relationships_table(p), people_table(p),
        environments_table(p)];
    match environment {
        Some(id) => match first_index(crate::environment_ids(p), id) {
            Some(k) => logical + seq![machines_table(p, p.environments[k]), devices_table(p, p.environments[k]),
                landings_table(p, p.environments[k])],
            None => logical,
        },
        None => logical,
    }
}

// ---- working them out ----

fn severity_for(p: &Project, findings: &Vec<Finding>, id: &Id) -> (r: Option<Severity>)
    requires
        findings_view(findings@).to_set() == lint_raw(p@).to_set(),
    ensures
        r == severity_of(p@, id@),
{
    let mut error = false;
    let mut warning = false;
    let mut info = false;
    let mut i: usize = 0;
    while i < findings.len()
        invariant
            i <= findings@.len(),
            error == (exists|k: int| 0 <= k < i && {
                let f = #[trigger] findings@[k]@;
                f.subject == id@ && rule_severity(f.rule) == Severity::Error
            }),
            warning == (exists|k: int| 0 <= k < i && {
                let f = #[trigger] findings@[k]@;
                f.subject == id@ && rule_severity(f.rule) == Severity::Warning
            }),
            info == (exists|k: int| 0 <= k < i && {
                let f = #[trigger] findings@[k]@;
                f.subject == id@ && rule_severity(f.rule) == Severity::Info
            }),
        decreases findings.len() - i,
    {
        let f = &findings[i];
        if f.subject.same(id) {
            match f.rule.severity() {
                Severity::Error => { error = true; },
                Severity::Warning => { warning = true; },
                Severity::Info => { info = true; },
            }
        }
        assert(findings@[i as int]@ == f@);
        i += 1;
    }
    proof {
        let raw = lint_raw(p@);
        let fs = findings_view(findings@);
        assert forall|s: Severity| (exists|k: int| 0 <= k < findings@.len() && {
            let f = #[trigger] findings@[k]@;
            f.subject == id@ && rule_severity(f.rule) == s
        }) == has_severity(p@, id@, s) by {
            if exists|k: int| 0 <= k < findings@.len() && {
                let f = #[trigger] findings@[k]@;
                f.subject == id@ && rule_severity(f.rule) == s
            } {
                let k = choose|k: int| 0 <= k < findings@.len() && {
                    let f = #[trigger] findings@[k]@;
                    f.subject == id@ && rule_severity(f.rule) == s
                };
                assert(fs[k] == findings@[k]@);
                assert(fs.to_set().contains(fs[k]));
                let m = choose|m: int| 0 <= m < raw.len() && raw[m] == fs[k];
                assert(has_severity(p@, id@, s));
            }
            if has_severity(p@, id@, s) {
                let m = choose|m: int| 0 <= m < raw.len() && {
                    let f = #[trigger] raw[m];
                    f.subject == id@ && rule_severity(f.rule) == s
                };
                assert(raw.to_set().contains(raw[m]));
                let k = choose|k: int| 0 <= k < fs.len() && fs[k] == raw[m];
                assert(fs[k] == findings@[k]@);
            }
        }
    }
    if error {
        Some(Severity::Error)
    } else if warning {
        Some(Severity::Warning)
    } else if info {
        Some(Severity::Info)
    } else {
        None
    }
}

fn text_of(s: &str) -> (r: String)
    ensures
        r@ == s@,
{
    s.to_string()
}

/// The texts joined with the separator between each two.
pub fn join_texts(parts: &Vec<String>, sep: &str) -> (r: String)
    ensures
        r@ == join(texts_view(parts@), sep@),
{
    let ghost s = texts_view(parts@);
    let mut out = String::new();
    let mut i: usize = 0;
    proof {
        reveal_strlit("");
    }
    while i < parts.len()
        invariant
            i <= parts@.len(),
            s == texts_view(parts@),
            out@ == join(s.take(i as int), sep@),
        decreases parts.len() - i,
    {
        proof {
            assert(s.take(i + 1).drop_last() =~= s.take(i as int));
            assert(s[i as int] == parts@[i as int]@);
        }
        if i > 0 {
            out.append(sep);
        } else {
            assert(out@ =~= Seq::<char>::empty());
        }
        out.append(parts[i].as_str());
        proof {
            if i == 0 {
                assert(s.take(1) =~= seq![s[0]]);
            }
        }
        i += 1;
    }
    assert(s.take(i as int) =~= s);
    out
}

fn count_text(n: usize, unit: &str) -> (r: String)
    ensures
        r@ == count_cell(n as nat, unit@),
{
    if n == 0 {
        return text_of("—");
    }
    let mut out = decimal_text(n as u64);
    out.append(unit);
    out
}

fn kind_label_text(k: NodeKind) -> (r: String)
    ensures
        r@ == node_kind_label(k),
{
    match k {
        NodeKind::Site => text_of("站點"),
        NodeKind::Physical => text_of("實體機"),
        NodeKind::VirtualMachine => text_of("VM"),
        NodeKind::LinuxContainer => text_of("Linux 容器"),
    }
}

fn containers_of_system(p: &Project, id: &Id) -> (r: usize)
    ensures
        r == p@.logical.containers.filter(|c: ContainerView| c.system == id@).len(),
{
    let ghost cs = p@.logical.containers;
    let ghost pred = |c: ContainerView| c.system == id@;
    let mut n: usize = 0;
    let mut i: usize = 0;
    while i < p.logical.containers.len()
        invariant
            i <= p.logical.containers@.len(),
            cs == p@.logical.containers,
            pred == (|c: ContainerView| c.system == id@),
            n == cs.take(i as int).filter(pred).len(),
            n <= i,
        decreases p.logical.containers.len() - i,
    {
        proof {
            assert(cs.take(i + 1).drop_last() =~= cs.take(i as int));
            assert(cs[i as int] == p.logical.containers@[i as int]@);
            reveal(Seq::filter);
        }
        if p.logical.containers[i].system.same(id) {
            n += 1;
        }
        i += 1;
    }
    assert(cs.take(i as int) =~= cs);
    n
}

fn systems_table_of(p: &Project, findings: &Vec<Finding>) -> (r: Table)
    requires
        findings_view(findings@).to_set() == lint_raw(p@).to_set(),
    ensures
        r@ == systems_table(p@),
{
    let ghost src = p@.logical.systems;
    let ghost f = |x: SoftwareSystemView| system_row(p@, x);
    let mut rows: Vec<ResourceRow> = Vec::new();
    let mut i: usize = 0;
    while i < p.logical.systems.len()
        invariant
            i <= p.logical.systems@.len(),
            src == p@.logical.systems,
            f == (|x: SoftwareSystemView| system_row(p@, x)),
            findings_view(findings@).to_set() == lint_raw(p@).to_set(),
            rows_view(rows@) == src.take(i as int).map_values(f),
        decreases p.logical.systems.len() - i,
    {
        let x = &p.logical.systems[i];
        let n = containers_of_system(p, &x.id);
        let cells = vec![x.slug.clone(), x.name.clone(), if x.external { text_of("外部") } else { text_of("自家") },
            decimal_text(n as u64)];
        let ghost before = rows_view(rows@);
        rows.push(ResourceRow {
            id: x.id.copy(),
            cells,
            depth: 0,
            severity: severity_for(p, findings, &x.id),
            resource: Resource::System(x.duplicate()),
        });
        proof {
            assert(src[i as int] == x@);
            let rv = rows@[rows@.len() - 1]@;
            assert(rv.cells =~= f(src[i as int]).cells);
            assert(rows_view(rows@) =~= before.push(f(src[i as int])));
            assert(src.take(i + 1).map_values(f) =~= src.take(i as int).map_values(f).push(f(src[i as int])));
        }
        i += 1;
    }
    assert(src.take(i as int) =~= src);
    let columns = vec![text_of("名稱"), text_of("顯示名"), text_of("自家／外部"), text_of("服務數")];
    let t = Table {
        kind: Kind::System,
        title: text_of("系統"),
        columns,
        rows,
        environment: None,
        empty_hint: text_of("先建一個系統——服務要掛在系統底下。"),
    };
    assert(t@.columns =~= systems_table(p@).columns);
    t
}

fn env_slug_columns(p: &Project, head: Vec<String>) -> (r: Vec<String>)
    ensures
        texts_view(r@) == texts_view(head@) + env_slugs(p@),
{
    let ghost h = texts_view(head@);
    let ghost es = env_slugs(p@);
    let mut out = head;
    let mut i: usize = 0;
    while i < p.environments.len()
        invariant
            i <= p.environments@.len(),
            es == env_slugs(p@),
            texts_view(out@) == h + es.take(i as int),
        decreases p.environments.len() - i,
    {
        let ghost before = texts_view(out@);
        out.push(p.environments[i].slug.clone());
        proof {
            assert(es[i as int] == p.environments@[i as int].slug@);
            assert(texts_view(out@) =~= before.push(es[i as int]));
            assert(es.take(i + 1) =~= es.take(i as int).push(es[i as int]));
        }
        i += 1;
    }
    assert(es.take(i as int) =~= es);
    out
}

fn system_name_of(p: &Project, id: &Id) -> (r: String)
    ensures
        r@ == system_name(p@.logical, id@),
{
    match p.logical.system(id) {
        Some(x) => x.slug.clone(),
        None => id.to_text(),
    }
}

fn container_name_of(p: &Project, id: &Id) -> (r: String)
    ensures
        r@ == container_name(p@.logical, id@),
{
    match p.logical.container(id) {
        Some(x) => x.slug.clone(),
        None => id.to_text(),
    }
}

fn person_name_of(p: &Project, id: &Id) -> (r: String)
    ensures
        r@ == person_name_or_id(p@.logical, id@),
{
    let ghost ids = person_ids(p@.logical);
    proof {
        crate::logical::lemma_first_index(ids, id@);
    }
    let mut i: usize = 0;
    while i < p.logical.people.len()
        invariant
            i <= p.logical.people@.len(),
            ids == person_ids(p@.logical),
            forall|j: int| 0 <= j < i ==> ids[j] != id@,
        decreases p.logical.people.len() - i,
    {
        assert(ids[i as int] == p.logical.people@[i as int].id@);
        if p.logical.people[i].id.same(id) {
            proof {
                crate::logical::lemma_first_index_unique(ids, id@, i as int);
            }
            return p.logical.people[i].slug.clone();
        }
        i += 1;
    }
    id.to_text()
}

fn end_name_of(p: &Project, end: &crate::logical::RelationshipEnd) -> (r: String)
    ensures
        r@ == end_name(p@.logical, end@),
{
    match end {
        crate::logical::RelationshipEnd::Container(id) => container_name_of(p, id),
        crate::logical::RelationshipEnd::System(id) => system_name_of(p, id),
        crate::logical::RelationshipEnd::Person(id) => person_name_of(p, id),
    }
}

fn def_slugs(defs: &Vec<crate::logical::EndpointDef>) -> (r: Vec<String>)
    ensures
        texts_view(r@) == defs@.map_values(|d: crate::logical::EndpointDef| d@).map_values(|d: EndpointDefView| d.slug),
{
    let ghost s = defs@.map_values(|d: crate::logical::EndpointDef| d@).map_values(|d: EndpointDefView| d.slug);
    let mut out: Vec<String> = Vec::new();
    let mut i: usize = 0;
    while i < defs.len()
        invariant
            i <= defs@.len(),
            s == defs@.map_values(|d: crate::logical::EndpointDef| d@).map_values(|d: EndpointDefView| d.slug),
            texts_view(out@) == s.take(i as int),
        decreases defs.len() - i,
    {
        let ghost before = texts_view(out@);
        out.push(defs[i].slug.clone());
        proof {
            assert(s[i as int] == defs@[i as int].slug@);
            assert(texts_view(out@) =~= before.push(s[i as int]));
            assert(s.take(i + 1) =~= s.take(i as int).push(s[i as int]));
        }
        i += 1;
    }
    assert(s.take(i as int) =~= s);
    out
}

pub open spec fn instance_count_cell(c: Seq<char>) -> spec_fn(EnvironmentView) -> Seq<char> {
    |e: EnvironmentView| count_cell(env_instances(e).filter(|i: ContainerInstanceView| i.container == c).len(), " 台"@)
}

fn instance_counts(p: &Project, c: &Id) -> (r: Vec<String>)
    ensures
        texts_view(r@) == p@.environments.map_values(instance_count_cell(c@)),
{
    let ghost g = instance_count_cell(c@);
    let ghost es = p@.environments;
    let mut cells: Vec<String> = Vec::new();
    let mut i: usize = 0;
    while i < p.environments.len()
        invariant
            i <= p.environments@.len(),
            es == p@.environments,
            g == instance_count_cell(c@),
            texts_view(cells@) == es.take(i as int).map_values(g),
        decreases p.environments.len() - i,
    {
        let e = &p.environments[i];
        let all = e.instances();
        let ls = crate::connect::landings(&all, c);
        assert(ls@.len() == crate::environment::instance_refs_view(ls@).len());
        let ghost before = texts_view(cells@);
        cells.push(count_text(ls.len(), " 台"));
        proof {
            assert(es[i as int] == e@);
            assert(texts_view(cells@) =~= before.push(g(es[i as int])));
            assert(es.take(i + 1).map_values(g) =~= es.take(i as int).map_values(g).push(g(es[i as int])));
        }
        i += 1;
    }
    assert(es.take(i as int) =~= es);
    cells
}

fn container_row_of(p: &Project, findings: &Vec<Finding>, c: &crate::logical::Container) -> (r: ResourceRow)
    requires
        findings_view(findings@).to_set() == lint_raw(p@).to_set(),
    ensures
        r@ == container_row(p@, c@),
{
    let slugs = def_slugs(&c.endpoints);
    let mut cells = vec![c.slug.clone(), c.name.clone(), system_name_of(p, &c.system), join_texts(&slugs, "、")];
    let ghost h = texts_view(cells@);
    let mut counts = instance_counts(p, &c.id);
    let ghost t = texts_view(counts@);
    cells.append(&mut counts);
    proof {
        assert(c@.endpoints == c.endpoints@.map_values(|d: crate::logical::EndpointDef| d@));
        assert(texts_view(cells@) =~= h + t);
        assert(p@.environments.map_values(instance_count_cell(c@.id)) =~= p@.environments.map_values(|e: EnvironmentView|
            count_cell(env_instances(e).filter(|i: ContainerInstanceView| i.container == c@.id).len(), " 台"@)));
    }
    let r = ResourceRow {
        id: c.id.copy(),
        cells,
        depth: 0,
        severity: severity_for(p, findings, &c.id),
        resource: Resource::Container(c.duplicate()),
    };
    assert(r@.cells =~= container_row(p@, c@).cells);
    r
}

fn containers_table_of(p: &Project, findings: &Vec<Finding>) -> (r: Table)
    requires
        findings_view(findings@).to_set() == lint_raw(p@).to_set(),
    ensures
        r@ == containers_table(p@),
{
    let ghost src = p@.logical.containers;
    let ghost f = |x: ContainerView| container_row(p@, x);
    let mut rows: Vec<ResourceRow> = Vec::new();
    let mut i: usize = 0;
    while i < p.logical.containers.len()
        invariant
            i <= p.logical.containers@.len(),
            src == p@.logical.containers,
            f == (|x: ContainerView| container_row(p@, x)),
            findings_view(findings@).to_set() == lint_raw(p@).to_set(),
            rows_view(rows@) == src.take(i as int).map_values(f),
        decreases p.logical.containers.len() - i,
    {
        let x = &p.logical.containers[i];
        let ghost before = rows_view(rows@);
        rows.push(container_row_of(p, findings, x));
        proof {
            assert(src[i as int] == x@);
            assert(rows_view(rows@) =~= before.push(f(src[i as int])));
            assert(src.take(i + 1).map_values(f) =~= src.take(i as int).map_values(f).push(f(src[i as int])));
        }
        i += 1;
    }
    assert(src.take(i as int) =~= src);
    let columns = env_slug_columns(p, vec![text_of("名稱"), text_of("顯示名"), text_of("所屬系統"), text_of("接點")]);
    let t = Table {
        kind: Kind::Container,
        title: text_of("服務"),
        columns,
        rows,
        environment: None,
        empty_hint: text_of("還沒有任何服務。Redis、Consul 這種會接收請求的程序都算。"),
    };
    assert(t@.columns =~= containers_table(p@).columns);
    t
}

fn push_def_rows(p: &Project, findings: &Vec<Finding>, owner: &Id, owner_slug: &String, defs: &Vec<crate::logical::EndpointDef>, rows: &mut Vec<ResourceRow>)
    requires
        findings_view(findings@).to_set() == lint_raw(p@).to_set(),
    ensures
        rows_view(final(rows)@) == rows_view(old(rows)@) + defs@.map_values(|d: crate::logical::EndpointDef| d@).map_values(
            |d: EndpointDefView| def_row(p@, owner@, owner_slug@, d),
        ),
{
    let ghost src = defs@.map_values(|d: crate::logical::EndpointDef| d@);
    let ghost f = |d: EndpointDefView| def_row(p@, owner@, owner_slug@, d);
    let ghost start = rows_view(rows@);
    let mut i: usize = 0;
    while i < defs.len()
        invariant
            i <= defs@.len(),
            src == defs@.map_values(|d: crate::logical::EndpointDef| d@),
            f == (|d: EndpointDefView| def_row(p@, owner@, owner_slug@, d)),
            findings_view(findings@).to_set() == lint_raw(p@).to_set(),
            rows_view(rows@) == start + src.take(i as int).map_values(f),
        decreases defs.len() - i,
    {
        let d = &defs[i];
        let cells = vec![owner_slug.clone(), d.slug.clone(), text_of(d.protocol.label())];
        let ghost before = rows_view(rows@);
        rows.push(ResourceRow {
            id: d.id.copy(),
            cells,
            depth: 0,
            severity: severity_for(p, findings, &d.id),
            resource: Resource::EndpointDef { owner: owner.copy(), def: d.duplicate() },
        });
        proof {
            assert(src[i as int] == d@);
            let rv = rows@[rows@.len() - 1]@;
            assert(rv.cells =~= f(src[i as int]).cells);
            assert(rows_view(rows@) =~= before.push(f(src[i as int])));
            assert(src.take(i + 1).map_values(f) =~= src.take(i as int).map_values(f).push(f(src[i as int])));
        }
        i += 1;
    }
    assert(src.take(i as int) =~= src);
}

fn defs_table_of(p: &Project, findings: &Vec<Finding>) -> (r: Table)
    requires
        findings_view(findings@).to_set() == lint_raw(p@).to_set(),
    ensures
        r@ == defs_table(p@),
{
    let ghost cs = p@.logical.containers;
    let ghost ss = p@.logical.systems;
    let mut rows: Vec<ResourceRow> = Vec::new();
    let mut i: usize = 0;
    while i < p.logical.containers.len()
        invariant
            i <= p.logical.containers@.len(),
            cs == p@.logical.containers,
            findings_view(findings@).to_set() == lint_raw(p@).to_set(),
            rows_view(rows@) == container_def_rows(p@, cs.take(i as int)),
        decreases p.logical.containers.len() - i,
    {
        let c = &p.logical.containers[i];
        push_def_rows(p, findings, &c.id, &c.slug, &c.endpoints, &mut rows);
        proof {
            assert(cs[i as int] == c@);
            assert(cs.take(i + 1).drop_last() =~= cs.take(i as int));
            assert(cs.take(i + 1).last() == c@);
        }
        i += 1;
    }
    assert(cs.take(i as int) =~= cs);
    let ghost mid = rows_view(rows@);
    let mut i: usize = 0;
    while i < p.logical.systems.len()
        invariant
            i <= p.logical.systems@.len(),
            ss == p@.logical.systems,
            findings_view(findings@).to_set() == lint_raw(p@).to_set(),
            rows_view(rows@) == mid + system_def_rows(p@, ss.take(i as int)),
        decreases p.logical.systems.len() - i,
    {
        let x = &p.logical.systems[i];
        push_def_rows(p, findings, &x.id, &x.slug, &x.endpoints, &mut rows);
        proof {
            assert(ss[i as int] == x@);
            assert(ss.take(i + 1).drop_last() =~= ss.take(i as int));
            assert(ss.take(i + 1).last() == x@);
        }
        i += 1;
    }
    assert(ss.take(i as int) =~= ss);
    let t = Table {
        kind: Kind::EndpointDef,
        title: text_of("接點定義"),
        columns: vec![text_of("掛在誰身上"), text_of("名稱"), text_of("協定")],
        rows,
        environment: None,
        empty_hint: text_of("接點定義是「這個服務怎麼被連上」。契約要指定連到哪一個。"),
    };
    assert(t@.columns =~= defs_table(p@).columns);
    t
}

pub open spec fn segment_count_cell(r: Seq<char>) -> spec_fn(EnvironmentView) -> Seq<char> {
    |e: EnvironmentView| count_cell(e.connections.filter(|c: crate::environment::ConnectionView| c.serves == r).len(), " 段"@)
}

fn serving_count(e: &Environment, r: &Id) -> (n: usize)
    ensures
        n == e@.connections.filter(|c: crate::environment::ConnectionView| c.serves == r@).len(),
{
    let ghost cs = e@.connections;
    let ghost pred = |c: crate::environment::ConnectionView| c.serves == r@;
    let mut n: usize = 0;
    let mut i: usize = 0;
    while i < e.connections.len()
        invariant
            i <= e.connections@.len(),
            cs == e@.connections,
            pred == (|c: crate::environment::ConnectionView| c.serves == r@),
            n == cs.take(i as int).filter(pred).len(),
            n <= i,
        decreases e.connections.len() - i,
    {
        proof {
            assert(cs.take(i + 1).drop_last() =~= cs.take(i as int));
            assert(cs[i as int] == e.connections@[i as int]@);
            reveal(Seq::filter);
        }
        if e.connections[i].serves.same(r) {
            n += 1;
        }
        i += 1;
    }
    assert(cs.take(i as int) =~= cs);
    n
}

fn segment_counts(p: &Project, r: &Id) -> (out: Vec<String>)
    ensures
        texts_view(out@) == p@.environments.map_values(segment_count_cell(r@)),
{
    let ghost g = segment_count_cell(r@);
    let ghost es = p@.environments;
    let mut cells: Vec<String> = Vec::new();
    let mut i: usize = 0;
    while i < p.environments.len()
        invariant
            i <= p.environments@.len(),
            es == p@.environments,
            g == segment_count_cell(r@),
            texts_view(cells@) == es.take(i as int).map_values(g),
        decreases p.environments.len() - i,
    {
        let e = &p.environments[i];
        let n = serving_count(e, r);
        let ghost before = texts_view(cells@);
        cells.push(count_text(n, " 段"));
        proof {
            assert(es[i as int] == e@);
            assert(texts_view(cells@) =~= before.push(g(es[i as int])));
            assert(es.take(i + 1).map_values(g) =~= es.take(i as int).map_values(g).push(g(es[i as int])));
        }
        i += 1;
    }
    assert(es.take(i as int) =~= es);
    cells
}

fn relationship_row_of(p: &Project, findings: &Vec<Finding>, r: &crate::logical::Relationship) -> (out: ResourceRow)
    requires
        findings_view(findings@).to_set() == lint_raw(p@).to_set(),
    ensures
        out@ == relationship_row(p@, r@),
{
    let mut cells = vec![r.slug.clone(), end_name_of(p, &r.from), end_name_of(p, &r.to), r.purpose.clone()];
    let ghost h = texts_view(cells@);
    let mut counts = segment_counts(p, &r.id);
    let ghost t = texts_view(counts@);
    cells.append(&mut counts);
    proof {
        assert(texts_view(cells@) =~= h + t);
        assert(p@.environments.map_values(segment_count_cell(r@.id)) =~= p@.environments.map_values(|e: EnvironmentView|
            count_cell(e.connections.filter(|c: crate::environment::ConnectionView| c.serves == r@.id).len(), " 段"@)));
    }
    let row = ResourceRow {
        id: r.id.copy(),
        cells,
        depth: 0,
        severity: severity_for(p, findings, &r.id),
        resource: Resource::Relationship(r.duplicate()),
    };
    assert(row@.cells =~= relationship_row(p@, r@).cells);
    row
}

/// The table of relationships, with per environment how many connections realise each.
fn relationships_table_of(p: &Project, findings: &Vec<Finding>) -> (r: Table)
    requires
        findings_view(findings@).to_set() == lint_raw(p@).to_set(),
    ensures
        r@ == relationships_table(p@),
{
    let ghost src = p@.logical.relationships;
    let ghost f = |x: RelationshipView| relationship_row(p@, x);
    let mut rows: Vec<ResourceRow> = Vec::new();
    let mut i: usize = 0;
    while i < p.logical.relationships.len()
        invariant
            i <= p.logical.relationships@.len(),
            src == p@.logical.relationships,
            f == (|x: RelationshipView| relationship_row(p@, x)),
            findings_view(findings@).to_set() == lint_raw(p@).to_set(),
            rows_view(rows@) == src.take(i as int).map_values(f),
        decreases p.logical.relationships.len() - i,
    {
        let x = &p.logical.relationships[i];
        let ghost before = rows_view(rows@);
        rows.push(relationship_row_of(p, findings, x));
        proof {
            assert(src[i as int] == x@);
            assert(rows_view(rows@) =~= before.push(f(src[i as int])));
            assert(src.take(i + 1).map_values(f) =~= src.take(i as int).map_values(f).push(f(src[i as int])));
        }
        i += 1;
    }
    assert(src.take(i as int) =~= src);
    let columns = env_slug_columns(p, vec![text_of("名稱"), text_of("來源"), text_of("目標"), text_of("用途")]);
    let t = Table {
        kind: Kind::Relationship,
        title: text_of("契約"),
        columns,
        rows,
        environment: None,
        empty_hint: text_of("契約是「誰要連誰」的母版。每個環境都必須實現，沒實現就會被 lint 抓出來。"),
    };
    assert(t@.columns =~= relationships_table(p@).columns);
    t
}

fn people_table_of(p: &Project, findings: &Vec<Finding>) -> (r: Table)
    requires
        findings_view(findings@).to_set() == lint_raw(p@).to_set(),
    ensures
        r@ == people_table(p@),
{
    let ghost src = p@.logical.people;
    let ghost f = |x: PersonView| row(p@, x.id, 0, seq![x.slug, x.name], ResourceView::Person(x));
    let mut rows: Vec<ResourceRow> = Vec::new();
    let mut i: usize = 0;
    while i < p.logical.people.len()
        invariant
            i <= p.logical.people@.len(),
            src == p@.logical.people,
            f == (|x: PersonView| row(p@, x.id, 0, seq![x.slug, x.name], ResourceView::Person(x))),
            findings_view(findings@).to_set() == lint_raw(p@).to_set(),
            rows_view(rows@) == src.take(i as int).map_values(f),
        decreases p.logical.people.len() - i,
    {
        let x = &p.logical.people[i];
        let ghost before = rows_view(rows@);
        rows.push(ResourceRow {
            id: x.id.copy(),
            cells: vec![x.slug.clone(), x.name.clone()],
            depth: 0,
            severity: severity_for(p, findings, &x.id),
            resource: Resource::Person(x.duplicate()),
        });
        proof {
            assert(src[i as int] == x@);
            let rv = rows@[rows@.len() - 1]@;
            assert(rv.cells =~= f(src[i as int]).cells);
            assert(rows_view(rows@) =~= before.push(f(src[i as int])));
            assert(src.take(i + 1).map_values(f) =~= src.take(i as int).map_values(f).push(f(src[i as int])));
        }
        i += 1;
    }
    assert(src.take(i as int) =~= src);
    let t = Table {
        kind: Kind::Person,
        title: text_of("人"),
        columns: vec![text_of("名稱"), text_of("顯示名")],
        rows,
        environment: None,
        empty_hint: text_of("「使用者連上系統」是 C4 Context 圖最前面那一段，少了它整條流量就缺頭。"),
    };
    assert(t@.columns =~= people_table(p@).columns);
    t
}

fn environments_table_of(p: &Project, findings: &Vec<Finding>) -> (r: Table)
    requires
        findings_view(findings@).to_set() == lint_raw(p@).to_set(),
    ensures
        r@ == environments_table(p@),
{
    let ghost src = p@.environments;
    let ghost f = |x: EnvironmentView| environment_row(p@, x);
    let mut rows: Vec<ResourceRow> = Vec::new();
    let mut i: usize = 0;
    while i < p.environments.len()
        invariant
            i <= p.environments@.len(),
            src == p@.environments,
            f == (|x: EnvironmentView| environment_row(p@, x)),
            findings_view(findings@).to_set() == lint_raw(p@).to_set(),
            rows_view(rows@) == src.take(i as int).map_values(f),
        decreases p.environments.len() - i,
    {
        let e = &p.environments[i];
        let index = EnvIndex::build(p, e);
        let nodes = index.node_count();
        let all = index.instances();
        let instances = all.len();
        assert(instances == crate::environment::instance_refs_view(all@).len());
        let cells = vec![e.slug.clone(), e.name.clone(), decimal_text(nodes as u64), decimal_text(instances as u64),
            decimal_text(e.connections.len() as u64)];
        let ghost before = rows_view(rows@);
        rows.push(ResourceRow {
            id: e.id.copy(),
            cells,
            depth: 0,
            severity: severity_for(p, findings, &e.id),
            resource: Resource::Environment(e.duplicate()),
        });
        proof {
            assert(src[i as int] == e@);
            let rv = rows@[rows@.len() - 1]@;
            assert(rv.cells =~= f(src[i as int]).cells);
            assert(rows_view(rows@) =~= before.push(f(src[i as int])));
            assert(src.take(i + 1).map_values(f) =~= src.take(i as int).map_values(f).push(f(src[i as int])));
        }
        i += 1;
    }
    assert(src.take(i as int) =~= src);
    let t = Table {
        kind: Kind::Environment,
        title: text_of("環境"),
        columns: vec![text_of("名稱"), text_of("顯示名"), text_of("機器"), text_of("落地"), text_of("連線")],
        rows,
        environment: None,
        empty_hint: text_of("至少要有一個環境，lint 才有話說——邏輯層自己不會缺什麼。"),
    };
    assert(t@.columns =~= environments_table(p@).columns);
    t
}

fn instance_slugs(node: &DeploymentNode) -> (r: Vec<String>)
    ensures
        texts_view(r@) == node@.instances.map_values(|i: ContainerInstanceView| i.slug),
{
    let ghost s = node@.instances.map_values(|i: ContainerInstanceView| i.slug);
    let mut out: Vec<String> = Vec::new();
    let mut i: usize = 0;
    while i < node.instances.len()
        invariant
            i <= node.instances@.len(),
            s == node@.instances.map_values(|i: ContainerInstanceView| i.slug),
            texts_view(out@) == s.take(i as int),
        decreases node.instances.len() - i,
    {
        let ghost before = texts_view(out@);
        out.push(node.instances[i].slug.clone());
        proof {
            assert(node@.instances[i as int] == node.instances@[i as int]@);
            assert(texts_view(out@) =~= before.push(s[i as int]));
            assert(s.take(i + 1) =~= s.take(i as int).push(s[i as int]));
        }
        i += 1;
    }
    assert(s.take(i as int) =~= s);
    out
}

fn push_tree_rows(p: &Project, findings: &Vec<Finding>, env: &Id, node: &DeploymentNode, parent: &Option<Id>, depth: u32, Ghost(level): Ghost<nat>, rows: &mut Vec<ResourceRow>)
    requires
        findings_view(findings@).to_set() == lint_raw(p@).to_set(),
        depth == depth_of(level),
    ensures
        rows_view(final(rows)@) == rows_view(old(rows)@) + tree_rows(p@, env@, node@, match parent {
            Some(x) => Some(x@),
            None => None,
        }, level),
    decreases node,
{
    let ghost pv: Option<Seq<char>> = match parent {
        Some(x) => Some(x@),
        None => None,
    };
    let ghost start = rows_view(rows@);
    let slugs = instance_slugs(node);
    let cells = vec![node.slug.clone(), kind_label_text(node.kind), join_texts(&slugs, "、")];
    rows.push(ResourceRow {
        id: node.id.copy(),
        cells,
        depth,
        severity: severity_for(p, findings, &node.id),
        resource: Resource::Node { environment: env.copy(), within: crate::environment::copy_opt_id(parent), node: node.duplicate() },
    });
    let ghost head = row(p@, node@.id, depth_of(level), seq![
        node@.slug,
        node_kind_label(node@.kind),
        join(node@.instances.map_values(|i: ContainerInstanceView| i.slug), "、"@),
    ], ResourceView::Node { environment: env@, within: pv, node: node@ });
    proof {
        let rv = rows@[rows@.len() - 1]@;
        assert(rv.cells =~= head.cells);
        assert(rows_view(rows@) =~= start.push(head));
        lemma_children_view(*node);
    }
    let child_depth = if depth < u32::MAX { depth + 1 } else { depth };
    let me = Some(node.id.copy());
    let ghost mid = rows_view(rows@);
    let mut j: usize = 0;
    while j < node.children.len()
        invariant
            j <= node.children@.len(),
            node@.children == nodes_view(node.children@),
            findings_view(findings@).to_set() == lint_raw(p@).to_set(),
            child_depth == depth_of(level + 1),
            me matches Some(x) && x@ == node@.id,
            rows_view(rows@) == mid + forest_rows(p@, env@, node@.children.take(j as int), Some(node@.id), level + 1),
        decreases node.children.len() - j,
    {
        push_tree_rows(p, findings, env, &node.children[j], &me, child_depth, Ghost(level + 1), rows);
        proof {
            let c = node@.children.take(j + 1);
            assert(c.drop_last() =~= node@.children.take(j as int));
            assert(c.last() == node.children@[j as int]@);
        }
        j += 1;
    }
    proof {
        assert(node@.children.take(j as int) =~= node@.children);
        assert(rows_view(rows@) =~= start + (seq![head] + forest_rows(p@, env@, node@.children, Some(node@.id), level + 1)));
    }
}

fn machines_table_of(p: &Project, findings: &Vec<Finding>, e: &Environment) -> (r: Table)
    requires
        findings_view(findings@).to_set() == lint_raw(p@).to_set(),
    ensures
        r@ == machines_table(p@, e@),
{
    let mut rows: Vec<ResourceRow> = Vec::new();
    let none: Option<Id> = None;
    let mut i: usize = 0;
    while i < e.nodes.len()
        invariant
            i <= e.nodes@.len(),
            none is None,
            findings_view(findings@).to_set() == lint_raw(p@).to_set(),
            rows_view(rows@) == forest_rows(p@, e@.id, e@.nodes.take(i as int), None, 0),
        decreases e.nodes.len() - i,
    {
        push_tree_rows(p, findings, &e.id, &e.nodes[i], &none, 0, Ghost(0), &mut rows);
        proof {
            let c = e@.nodes.take(i + 1);
            assert(c.drop_last() =~= e@.nodes.take(i as int));
            assert(c.last() == e.nodes@[i as int]@);
        }
        i += 1;
    }
    assert(e@.nodes.take(i as int) =~= e@.nodes);
    let t = Table {
        kind: Kind::Node,
        title: text_of("機器"),
        columns: vec![text_of("名稱"), text_of("種類"), text_of("上面跑的服務")],
        rows,
        environment: Some(e.id.copy()),
        empty_hint: text_of("站點、實體機、VM、Linux 容器都是機器。站點是拿來裝別的機器的。"),
    };
    assert(t@.columns =~= machines_table(p@, e@).columns);
    t
}

fn vip_texts(eps: &Vec<Endpoint>) -> (r: Vec<String>)
    ensures
        texts_view(r@) == eps@.map_values(|x: Endpoint| x@).map_values(|ep: EndpointView| vip_text(ep)),
{
    let ghost s = eps@.map_values(|x: Endpoint| x@).map_values(|ep: EndpointView| vip_text(ep));
    let mut out: Vec<String> = Vec::new();
    let mut i: usize = 0;
    while i < eps.len()
        invariant
            i <= eps@.len(),
            s == eps@.map_values(|x: Endpoint| x@).map_values(|ep: EndpointView| vip_text(ep)),
            texts_view(out@) == s.take(i as int),
        decreases eps.len() - i,
    {
        let ep = &eps[i];
        let mut t = ep.slug.clone();
        t.append("（");
        match &ep.address {
            Some(a) => t.append(a.as_str()),
            None => t.append("沒有位址"),
        }
        t.append("）");
        let ghost before = texts_view(out@);
        out.push(t);
        proof {
            assert(s[i as int] == vip_text(ep@));
            assert(texts_view(out@) =~= before.push(s[i as int]));
            assert(s.take(i + 1) =~= s.take(i as int).push(s[i as int]));
        }
        i += 1;
    }
    assert(s.take(i as int) =~= s);
    out
}

fn devices_table_of(p: &Project, findings: &Vec<Finding>, e: &Environment) -> (r: Table)
    requires
        findings_view(findings@).to_set() == lint_raw(p@).to_set(),
    ensures
        r@ == devices_table(p@, e@),
{
    let ghost src = e@.infra;
    let ghost f = |n: InfrastructureNodeView| row(p@, n.id, 0, seq![
        n.slug,
        join(n.endpoints.map_values(|ep: EndpointView| vip_text(ep)), "、"@),
    ], ResourceView::Infra { environment: e@.id, node: n });
    let mut rows: Vec<ResourceRow> = Vec::new();
    let mut i: usize = 0;
    while i < e.infra.len()
        invariant
            i <= e.infra@.len(),
            src == e@.infra,
            f == (|n: InfrastructureNodeView| row(p@, n.id, 0, seq![
                n.slug,
                join(n.endpoints.map_values(|ep: EndpointView| vip_text(ep)), "、"@),
            ], ResourceView::Infra { environment: e@.id, node: n })),
            findings_view(findings@).to_set() == lint_raw(p@).to_set(),
            rows_view(rows@) == src.take(i as int).map_values(f),
        decreases e.infra.len() - i,
    {
        let n = &e.infra[i];
        let vips = vip_texts(&n.endpoints);
        let cells = vec![n.slug.clone(), join_texts(&vips, "、")];
        let ghost before = rows_view(rows@);
        rows.push(ResourceRow {
            id: n.id.copy(),
            cells,
            depth: 0,
            severity: severity_for(p, findings, &n.id),
            resource: Resource::Infra { environment: e.id.copy(), node: n.duplicate() },
        });
        proof {
            assert(src[i as int] == n@);
            assert(n@.endpoints == n.endpoints@.map_values(|x: Endpoint| x@));
            let rv = rows@[rows@.len() - 1]@;
            assert(rv.cells =~= f(src[i as int]).cells);
            assert(rows_view(rows@) =~= before.push(f(src[i as int])));
            assert(src.take(i + 1).map_values(f) =~= src.take(i as int).map_values(f).push(f(src[i as int])));
        }
        i += 1;
    }
    assert(src.take(i as int) =~= src);
    let t = Table {
        kind: Kind::Infra,
        title: text_of("設備"),
        columns: vec![text_of("名稱"), text_of("VIP")],
        rows,
        environment: Some(e.id.copy()),
        empty_hint: text_of("F5 這類 VIP 設備。經過它的流量在模型裡會拆成兩段。"),
    };
    assert(t@.columns =~= devices_table(p@, e@).columns);
    t
}

fn address_texts(eps: &Vec<Endpoint>) -> (r: Vec<String>)
    ensures
        texts_view(r@) == given_addresses(eps@.map_values(|x: Endpoint| x@)),
{
    let ghost s = eps@.map_values(|x: Endpoint| x@);
    let mut out: Vec<String> = Vec::new();
    let mut i: usize = 0;
    while i < eps.len()
        invariant
            i <= eps@.len(),
            s == eps@.map_values(|x: Endpoint| x@),
            texts_view(out@) == given_addresses(s.take(i as int)),
        decreases eps.len() - i,
    {
        let ghost before = texts_view(out@);
        proof {
            assert(s.take(i + 1).drop_last() =~= s.take(i as int));
            assert(s.take(i + 1).last() == eps@[i as int]@);
        }
        match &eps[i].address {
            Some(a) => {
                out.push(a.clone());
                assert(texts_view(out@) =~= before.push(a@));
            },
            None => {
                assert(texts_view(out@) =~= before + Seq::<Seq<char>>::empty());
            },
        }
        i += 1;
    }
    assert(s.take(i as int) =~= s);
    out
}

fn landings_table_of(p: &Project, findings: &Vec<Finding>, e: &Environment) -> (r: Table)
    requires
        findings_view(findings@).to_set() == lint_raw(p@).to_set(),
    ensures
        r@ == landings_table(p@, e@),
{
    let ghost src = e@.systems;
    let ghost f = |s: SoftwareSystemInstanceView| row(p@, s.id, 0, seq![
        s.slug,
        system_name(p@.logical, s.system),
        join(given_addresses(s.endpoints), "、"@),
    ], ResourceView::SystemInstance { environment: e@.id, instance: s });
    let mut rows: Vec<ResourceRow> = Vec::new();
    let mut i: usize = 0;
    while i < e.systems.len()
        invariant
            i <= e.systems@.len(),
            src == e@.systems,
            f == (|s: SoftwareSystemInstanceView| row(p@, s.id, 0, seq![
                s.slug,
                system_name(p@.logical, s.system),
                join(given_addresses(s.endpoints), "、"@),
            ], ResourceView::SystemInstance { environment: e@.id, instance: s })),
            findings_view(findings@).to_set() == lint_raw(p@).to_set(),
            rows_view(rows@) == src.take(i as int).map_values(f),
        decreases e.systems.len() - i,
    {
        let x = &e.systems[i];
        let addrs = address_texts(&x.endpoints);
        let cells = vec![x.slug.clone(), system_name_of(p, &x.system), join_texts(&addrs, "、")];
        let ghost before = rows_view(rows@);
        rows.push(ResourceRow {
            id: x.id.copy(),
            cells,
            depth: 0,
            severity: severity_for(p, findings, &x.id),
            resource: Resource::SystemInstance { environment: e.id.copy(), instance: x.duplicate() },
        });
        proof {
            assert(src[i as int] == x@);
            assert(x@.endpoints == x.endpoints@.map_values(|y: Endpoint| y@));
            let rv = rows@[rows@.len() - 1]@;
            assert(rv.cells =~= f(src[i as int]).cells);
            assert(rows_view(rows@) =~= before.push(f(src[i as int])));
            assert(src.take(i + 1).map_values(f) =~= src.take(i as int).map_values(f).push(f(src[i as int])));
        }
        i += 1;
    }
    assert(src.take(i as int) =~= src);
    let t = Table {
        kind: Kind::SystemInstance,
        title: text_of("外部系統落地"),
        columns: vec![text_of("名稱"), text_of("對應系統"), text_of("位址")],
        rows,
        environment: Some(e.id.copy()),
        empty_hint: text_of("金流之類的外部系統在這個環境打哪個位址。那些機器不是我們的，所以不放在機器底下。"),
    };
    assert(t@.columns =~= landings_table(p@, e@).columns);
    t
}

/// Every table of the logical layer (systems, services, endpoint definitions,
/// relationships, people, environments); with the id of one of the project's
/// environments, also its machines, devices and external-system landings.
pub fn tables(project: &Project, environment: Option<&Id>) -> (r: Vec<Table>)
    ensures
        tables_view(r@) == tables_spec(project@, match environment {
            Some(x) => Some(x@),
            None => None,
        }),
{
    let findings = lint(project);
    let mut out: Vec<Table> = Vec::new();
    out.push(systems_table_of(project, &findings));
    out.push(containers_table_of(project, &findings));
    out.push(defs_table_of(project, &findings));
    out.push(relationships_table_of(project, &findings));
    out.push(people_table_of(project, &findings));
    out.push(environments_table_of(project, &findings));
    let ghost logical = tables_view(out@);
    assert(logical =~= seq![systems_table(project@), containers_table(project@), defs_table(project@),
        relationships_table(project@), people_table(project@), environments_table(project@)]);
    if let Some(env_id) = environment {
        if let Some(env) = project.environment(env_id) {
            out.push(machines_table_of(project, &findings, env));
            out.push(devices_table_of(project, &findings, env));
            out.push(landings_table_of(project, &findings, env));
            assert(tables_view(out@) =~= logical + seq![machines_table(project@, env@), devices_table(project@, env@),
                landings_table(project@, env@)]);
        }
    }
    out
}

// ---- every row fills its table's columns ----

pub open spec fn rows_fit(t: TableView) -> bool {
    forall|k: int| 0 <= k < t.rows.len() ==> (#[trigger] t.rows[k]).cells.len() == t.columns.len()
}

proof fn lemma_def_rows_width(p: ProjectView, cs: Seq<ContainerView>, ss: Seq<SoftwareSystemView>)
    ensures
        forall|k: int| 0 <= k < container_def_rows(p, cs).len() ==> (#[trigger] container_def_rows(p, cs)[k]).cells.len() == 3,
        forall|k: int| 0 <= k < system_def_rows(p, ss).len() ==> (#[trigger] system_def_rows(p, ss)[k]).cells.len() == 3,
    decreases cs.len() + ss.len(),
{
    if cs.len() > 0 {
        lemma_def_rows_width(p, cs.drop_last(), ss);
        let a = container_def_rows(p, cs.drop_last());
        let c = cs.last();
        let b = c.endpoints.map_values(|d: EndpointDefView| def_row(p, c.id, c.slug, d));
        assert forall|k: int| 0 <= k < (a + b).len() implies (#[trigger] (a + b)[k]).cells.len() == 3 by {
            if k >= a.len() {
                assert((a + b)[k] == b[k - a.len()]);
            }
        }
    }
    if ss.len() > 0 {
        lemma_def_rows_width(p, cs, ss.drop_last());
        let a = system_def_rows(p, ss.drop_last());
        let c = ss.last();
        let b = c.endpoints.map_values(|d: EndpointDefView| def_row(p, c.id, c.slug, d));
        assert forall|k: int| 0 <= k < (a + b).len() implies (#[trigger] (a + b)[k]).cells.len() == 3 by {
            if k >= a.len() {
                assert((a + b)[k] == b[k - a.len()]);
            }
        }
    }
}

proof fn lemma_tree_rows_width(p: ProjectView, env: Seq<char>, n: DeploymentNodeView, parent: Option<Seq<char>>, depth: nat)
    ensures
        forall|k: int| 0 <= k < tree_rows(p, env, n, parent, depth).len()
            ==> (#[trigger] tree_rows(p, env, n, parent, depth)[k]).cells.len() == 3,
    decreases n,
{
    lemma_forest_rows_width(p, env, n.children, Some(n.id), depth + 1);
    let a = seq![row(p, n.id, depth_of(depth), seq![
        n.slug,
        node_kind_label(n.kind),
        join(n.instances.map_values(|i: ContainerInstanceView| i.slug), "、"@),
    ], ResourceView::Node { environment: env, within: parent, node: n })];
    let b = forest_rows(p, env, n.children, Some(n.id), depth + 1);
    assert forall|k: int| 0 <= k < (a + b).len() implies (#[trigger] (a + b)[k]).cells.len() == 3 by {
        if k >= 1 {
            assert((a + b)[k] == b[k - 1]);
        }
    }
}

proof fn lemma_forest_rows_width(p: ProjectView, env: Seq<char>, s: Seq<DeploymentNodeView>, parent: Option<Seq<char>>, depth: nat)
    ensures
        forall|k: int| 0 <= k < forest_rows(p, env, s, parent, depth).len()
            ==> (#[trigger] forest_rows(p, env, s, parent, depth)[k]).cells.len() == 3,
    decreases s,
{
    if s.len() > 0 {
        lemma_forest_rows_width(p, env, s.drop_last(), parent, depth);
        lemma_tree_rows_width(p, env, s.last(), parent, depth);
        let a = forest_rows(p, env, s.drop_last(), parent, depth);
        let b = tree_rows(p, env, s.last(), parent, depth);
        assert forall|k: int| 0 <= k < (a + b).len() implies (#[trigger] (a + b)[k]).cells.len() == 3 by {
            if k >= a.len() {
                assert((a + b)[k] == b[k - a.len()]);
            }
        }
    }
}

/// Every row of every table has exactly one cell per column of its table (the tables
/// with a column per environment included).
pub proof fn lemma_rows_fill_columns(p: ProjectView, environment: Option<Seq<char>>)
    ensures
        forall|t: int| 0 <= t < tables_spec(p, environment).len() ==> rows_fit(#[trigger] tables_spec(p, environment)[t]),
{
    lemma_def_rows_width(p, p.logical.containers, p.logical.systems);
    let d = defs_table(p);
    assert forall|k: int| 0 <= k < d.rows.len() implies (#[trigger] d.rows[k]).cells.len() == d.columns.len() by {
        let a = container_def_rows(p, p.logical.containers);
        if k >= a.len() {
            assert(d.rows[k] == system_def_rows(p, p.logical.systems)[k - a.len()]);
        }
    }
    assert(rows_fit(d));
    assert(rows_fit(systems_table(p)));
    assert(rows_fit(containers_table(p)));
    assert(rows_fit(relationships_table(p)));
    assert(rows_fit(people_table(p)));
    assert(rows_fit(environments_table(p)));
    if let Some(id) = environment {
        if let Some(k) = first_index(crate::environment_ids(p), id) {
            crate::logical::lemma_first_index(crate::environment_ids(p), id);
            let e = p.environments[k];
            lemma_forest_rows_width(p, e.id, e.nodes, None, 0);
            assert(rows_fit(machines_table(p, e)));
            assert(rows_fit(devices_table(p, e)));
            assert(rows_fit(landings_table(p, e)));
        }
    }
}

} // verus!
