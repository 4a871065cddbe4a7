//! The import preview: what a sheet would change, before it is applied.
//!
//! Importing is the one operation that changes a lot at once; a column pasted one cell
//! off would wash out an environment unnoticed. The preview is not a second "what if"
//! implementation, which would drift from the importer: the real importer runs on a copy
//! of the project, and the two inventories, before and after, are compared. So what the
//! preview shows is what applying does.

use vstd::prelude::*;
use crate::{Project, ProjectView};
use crate::duplicate::Duplicate;
use crate::environment::{ConnectionView, ContainerInstanceView, DeploymentNode, DeploymentNodeView, Endpoint, EndpointView,
    Endpointing, EndpointingView, Environment, EnvironmentView, InfrastructureNodeView, InstanceRef, InstanceRefView,
    NodeKind, SoftwareSystemInstanceView, lemma_children_view};
use crate::id::Id;
use crate::importer::{ImportError, ImportWarning, ImportWarningView, Sheet, SheetView, import, project_kept, sheet_error,
    sites_apart, value_spec, warning_text, warnings_view, imported, missing_columns, first_row_error, unknown_columns};
use crate::logical::{ContainerView, EndpointDefView, LogicalView, Protocol, RelationshipView, first_index,
    relationship_ids};
use crate::order::{seq_lt, text_eq, text_lt};
use crate::text::{concat2, concat3, decimal, decimal_text, owned};

verus! {

/// What kind of thing a change touches; the screen groups by it, in this order.
#[derive(Debug, Clone, Copy, PartialEq, Eq, Structural)]
pub enum Element {
    Environment,
    /// A service of the logical layer.
    Container,
    /// An endpoint definition of the logical layer.
    EndpointDef,
    /// A relationship of the logical layer.
    Relationship,
    DeploymentNode,
    ContainerInstance,
    /// The actual address of an endpoint.
    Address,
    InfrastructureNode,
    SoftwareSystemInstance,
    Connection,
}

pub open spec fn element_rank(e: Element) -> int {
    match e {
        Element::Environment => 0,
        Element::Container => 1,
        Element::EndpointDef => 2,
        Element::Relationship => 3,
        Element::DeploymentNode => 4,
        Element::ContainerInstance => 5,
        Element::Address => 6,
        Element::InfrastructureNode => 7,
        Element::SoftwareSystemInstance => 8,
        Element::Connection => 9,
    }
}

fn element_number(e: Element) -> (r: u8)
    ensures
        r as int == element_rank(e),
{
    match e {
        Element::Environment => 0,
        Element::Container => 1,
        Element::EndpointDef => 2,
        Element::Relationship => 3,
        Element::DeploymentNode => 4,
        Element::ContainerInstance => 5,
        Element::Address => 6,
        Element::InfrastructureNode => 7,
        Element::SoftwareSystemInstance => 8,
        Element::Connection => 9,
    }
}

#[derive(Debug, Clone, Copy, PartialEq, Eq, Structural)]
pub enum ChangeKind {
    Added,
    Updated,
}

#[derive(Debug, Clone, PartialEq, Eq)]
pub struct Change {
    pub kind: ChangeKind,
    pub element: Element,
    /// Where it is, readable, such as `prod／redis-01`.
    pub label: String,
    /// The value before; `None` for an addition.
    pub before: Option<String>,
    pub after: String,
}

pub struct ChangeView {
    pub kind: ChangeKind,
    pub element: Element,
    pub label: Seq<char>,
    pub before: Option<Seq<char>>,
    pub after: Seq<char>,
}

impl View for Change {
    type V = ChangeView;

    open spec fn view(&self) -> ChangeView {
        ChangeView {
            kind: self.kind,
            element: self.element,
            label: self.label@,
            before: match self.before {
                Some(b) => Some(b@),
                None => None,
            },
            after: self.after@,
        }
    }
}

#[derive(Debug, Clone, PartialEq, Eq)]
pub struct Plan {
    pub changes: Vec<Change>,
    /// Items of the sheet that are there already, unchanged; large when importing again.
    pub unchanged: u32,
    /// The importer's own warnings (such as conflicting addresses), as text.
    pub warnings: Vec<String>,
    /// The environments the sheet touches, so that the scope is known before applying.
    pub environments: Vec<String>,
}

pub struct PlanView {
    pub changes: Seq<ChangeView>,
    pub unchanged: u32,
    pub warnings: Seq<Seq<char>>,
    pub environments: Seq<Seq<char>>,
}

pub open spec fn changes_view(s: Seq<Change>) -> Seq<ChangeView> {
    s.map_values(|c: Change| c@)
}

pub open spec fn texts_view(s: Seq<String>) -> Seq<Seq<char>> {
    s.map_values(|x: String| x@)
}

impl View for Plan {
    type V = PlanView;

    open spec fn view(&self) -> PlanView {
        PlanView {
            changes: changes_view(self.changes@),
            unchanged: self.unchanged,
            warnings: texts_view(self.warnings@),
            environments: texts_view(self.environments@),
        }
    }
}

// ---- the inventory: path, kind, label and value of everything a sheet can touch ----

/// One thing of the project, keyed by a path of names (not ids: ids are new on every
/// import, so keyed by id everything would look added; the names are what users know).
pub struct Item {
    pub key: String,
    pub element: Element,
    pub label: String,
    pub value: String,
}

pub struct ItemView {
    pub key: Seq<char>,
    pub element: Element,
    pub label: Seq<char>,
    pub value: Seq<char>,
}

impl View for Item {
    type V = ItemView;

    open spec fn view(&self) -> ItemView {
        ItemView { key: self.key@, element: self.element, label: self.label@, value: self.value@ }
    }
}

pub open spec fn items_view(s: Seq<Item>) -> Seq<ItemView> {
    s.map_values(|x: Item| x@)
}

pub open spec fn item(key: Seq<char>, element: Element, label: Seq<char>, value: Seq<char>) -> ItemView {
    ItemView { key, element, label, value }
}

pub open spec fn concat_items<A>(s: Seq<A>, f: spec_fn(A) -> Seq<ItemView>) -> Seq<ItemView>
    decreases s.len(),
{
    if s.len() == 0 {
        seq![]
    } else {
        concat_items(s.drop_last(), f) + f(s.last())
    }
}

pub open spec fn protocol_debug(p: Protocol) -> Seq<char> {
    match p {
        Protocol::Tcp => "Tcp"@,
        Protocol::Udp => "Udp"@,
        Protocol::UnixSocket => "UnixSocket"@,
        Protocol::Jdbc => "Jdbc"@,
        Protocol::File => "File"@,
    }
}

pub open spec fn kind_debug(k: NodeKind) -> Seq<char> {
    match k {
        NodeKind::Site => "Site"@,
        NodeKind::Physical => "Physical"@,
        NodeKind::VirtualMachine => "VirtualMachine"@,
        NodeKind::LinuxContainer => "LinuxContainer"@,
    }
}

pub open spec fn or_empty(o: Option<Seq<char>>) -> Seq<char> {
    match o {
        Some(x) => x,
        None => seq![],
    }
}

pub open spec fn id_text(id: Seq<char>) -> Seq<char> {
    "Id(\""@ + id + "\")"@
}

pub open spec fn opt_id_text(o: Option<Seq<char>>) -> Seq<char> {
    match o {
        Some(id) => "Some("@ + id_text(id) + ")"@,
        None => "None"@,
    }
}

pub open spec fn opt_count_text(o: Option<u32>) -> Seq<char> {
    match o {
        Some(n) => "Some("@ + decimal(n as nat) + ")"@,
        None => "None"@,
    }
}

pub open spec fn target_text(t: InstanceRefView) -> Seq<char> {
    match t {
        InstanceRefView::One(id) => "One("@ + id_text(id) + ")"@,
        InstanceRefView::Pattern { slug_pattern, within, expect } => "Pattern { slug_pattern: \""@ + slug_pattern
            + "\", within: "@ + opt_id_text(within) + ", expect: "@ + opt_count_text(expect) + " }"@,
    }
}

/// One end of a connection written out field by field, as part of the connection's identity.
pub open spec fn end_text(e: EndpointingView) -> Seq<char> {
    match e {
        EndpointingView::Instance { target, endpoint } => "Instance { target: "@ + target_text(target) + ", endpoint: "@
            + opt_id_text(endpoint) + " }"@,
        EndpointingView::Infra { node, endpoint } => "Infra { node: "@ + id_text(node) + ", endpoint: "@
            + opt_id_text(endpoint) + " }"@,
        EndpointingView::System { instance, endpoint } => "System { instance: "@ + id_text(instance) + ", endpoint: "@
            + opt_id_text(endpoint) + " }"@,
        EndpointingView::Person { person } => "Person { person: "@ + id_text(person) + " }"@,
    }
}

pub open spec fn container_items(c: ContainerView) -> Seq<ItemView> {
    seq![item("邏輯/服務/"@ + c.slug, Element::Container, c.slug, c.name)]
        + c.endpoints.map_values(|d: EndpointDefView| item("邏輯/服務/"@ + c.slug + "/接點/"@ + d.slug, Element::EndpointDef,
            c.slug + "／"@ + d.slug, protocol_debug(d.protocol)))
}

pub open spec fn relationship_item(r: RelationshipView) -> ItemView {
    item("邏輯/契約/"@ + r.slug, Element::Relationship, r.slug, r.purpose)
}

pub open spec fn logical_items(l: LogicalView) -> Seq<ItemView> {
    concat_items(l.containers, |c: ContainerView| container_items(c))
        + l.relationships.map_values(|r: RelationshipView| relationship_item(r))
}

pub open spec fn instance_items(env: Seq<char>, node: Seq<char>, i: ContainerInstanceView) -> Seq<ItemView> {
    seq![item("環境/"@ + env + "/服務實體/"@ + i.slug, Element::ContainerInstance, env + "／"@ + i.slug, node)]
        + i.endpoints.map_values(|ep: EndpointView| item("環境/"@ + env + "/服務實體/"@ + i.slug + "/位址/"@ + ep.slug,
            Element::Address, env + "／"@ + i.slug + "／"@ + ep.slug, or_empty(ep.address)))
}

/// A machine, its landings with their addresses, then the machines inside it.
pub open spec fn tree_items(env: Seq<char>, n: DeploymentNodeView) -> Seq<ItemView>
    decreases n,
{
    seq![item("環境/"@ + env + "/機器/"@ + n.slug, Element::DeploymentNode, env + "／"@ + n.slug, kind_debug(n.kind))]
        + concat_items(n.instances, |i: ContainerInstanceView| instance_items(env, n.slug, i))
        + forest_items(env, n.children)
}

pub open spec fn forest_items(env: Seq<char>, s: Seq<DeploymentNodeView>) -> Seq<ItemView>
    decreases s,
{
    if s.len() == 0 {
        seq![]
    } else {
        forest_items(env, s.drop_last()) + tree_items(env, s.last())
    }
}

pub open spec fn infra_items(env: Seq<char>, n: InfrastructureNodeView) -> Seq<ItemView> {
    seq![item("環境/"@ + env + "/設備/"@ + n.slug, Element::InfrastructureNode, env + "／"@ + n.slug, seq![])]
        + n.endpoints.map_values(|ep: EndpointView| item("環境/"@ + env + "/設備/"@ + n.slug + "/位址/"@ + ep.slug,
            Element::Address, env + "／"@ + n.slug + "／"@ + ep.slug, or_empty(ep.address)))
}

pub open spec fn system_item(env: Seq<char>, x: SoftwareSystemInstanceView) -> ItemView {
    item("環境/"@ + env + "/外部系統/"@ + x.slug, Element::SoftwareSystemInstance, env + "／"@ + x.slug, seq![])
}

/// The name of the relationship a connection serves, or its id when there is none.
pub open spec fn serves_name(l: LogicalView, serves: Seq<char>) -> Seq<char> {
    match first_index(relationship_ids(l), serves) {
        Some(k) => l.relationships[k].slug,
        None => serves,
    }
}

/// A connection has no name: it is the relationship it serves and its two ends, the same
/// identity the importer upserts by, or the preview would not match what happens.
pub open spec fn connection_item(l: LogicalView, env: Seq<char>, c: ConnectionView) -> ItemView {
    let rid = serves_name(l, c.serves);
    item("環境/"@ + env + "/連線/"@ + rid + "|"@ + end_text(c.from) + "|"@ + end_text(c.to), Element::Connection,
        env + "／"@ + rid, c.purpose)
}

pub open spec fn env_items(l: LogicalView, e: EnvironmentView) -> Seq<ItemView> {
    seq![item("環境/"@ + e.slug, Element::Environment, e.slug, e.name)]
        + forest_items(e.slug, e.nodes)
        + concat_items(e.infra, |n: InfrastructureNodeView| infra_items(e.slug, n))
        + e.systems.map_values(|x: SoftwareSystemInstanceView| system_item(e.slug, x))
        + e.connections.map_values(|c: ConnectionView| connection_item(l, e.slug, c))
}

/// Every item of the project, in the order they are listed.
pub open spec fn project_items(p: ProjectView) -> Seq<ItemView> {
    logical_items(p.logical) + concat_items(p.environments, |e: EnvironmentView| env_items(p.logical, e))
}

/// The inventory with one more item, kept in key order: an item with the same key is
/// replaced (a later item wins), another goes in its place.
pub open spec fn upsert(s: Seq<ItemView>, x: ItemView) -> Seq<ItemView>
    decreases s.len(),
{
    if s.len() == 0 {
        seq![x]
    } else if s.last().key == x.key {
        s.drop_last().push(x)
    } else if seq_lt(x.key, s.last().key) {
        upsert(s.drop_last(), x).push(s.last())
    } else {
        s.push(x)
    }
}

pub open spec fn upsert_all(s: Seq<ItemView>, xs: Seq<ItemView>) -> Seq<ItemView>
    decreases xs.len(),
{
    if xs.len() == 0 {
        s
    } else {
        upsert(upsert_all(s, xs.drop_last()), xs.last())
    }
}

/// The whole project as one list of items in key order, one per key.
pub open spec fn inventory(p: ProjectView) -> Seq<ItemView> {
    upsert_all(seq![], project_items(p))
}

// ---- writing the inventory out ----

fn protocol_text(p: Protocol) -> (r: &'static str)
    ensures
        r@ == protocol_debug(p),
{
    match p {
        Protocol::Tcp => "Tcp",
        Protocol::Udp => "Udp",
        Protocol::UnixSocket => "UnixSocket",
        Protocol::Jdbc => "Jdbc",
        Protocol::File => "File",
    }
}

fn kind_text(k: NodeKind) -> (r: &'static str)
    ensures
        r@ == kind_debug(k),
{
    match k {
        NodeKind::Site => "Site",
        NodeKind::Physical => "Physical",
        NodeKind::VirtualMachine => "VirtualMachine",
        NodeKind::LinuxContainer => "LinuxContainer",
    }
}

fn id_text_of(id: &Id) -> (r: String)
    ensures
        r@ == id_text(id@),
{
    concat3("Id(\"", id.as_str(), "\")")
}

fn opt_id_text_of(o: &Option<Id>) -> (r: String)
    ensures
        r@ == opt_id_text(crate::environment::opt_id_view(*o)),
{
    match o {
        Some(id) => concat3("Some(", id_text_of(id).as_str(), ")"),
        None => owned("None"),
    }
}

fn opt_count_text_of(o: Option<u32>) -> (r: String)
    ensures
        r@ == opt_count_text(o),
{
    match o {
        Some(n) => concat3("Some(", decimal_text(n as u64).as_str(), ")"),
        None => owned("None"),
    }
}

fn target_text_of(t: &InstanceRef) -> (r: String)
    ensures
        r@ == target_text(t@),
{
    match t {
        InstanceRef::One(id) => concat3("One(", id_text_of(id).as_str(), ")"),
        InstanceRef::Pattern { slug_pattern, within, expect } => {
            let mut out = concat2("Pattern { slug_pattern: \"", slug_pattern.as_str());
            out.append("\", within: ");
            out.append(opt_id_text_of(within).as_str());
            out.append(", expect: ");
            out.append(opt_count_text_of(*expect).as_str());
            out.append(" }");
            out
        },
    }
}

fn end_text_of(e: &Endpointing) -> (r: String)
    ensures
        r@ == end_text(e@),
{
    match e {
        Endpointing::Instance { target, endpoint } => {
            let mut out = concat2("Instance { target: ", target_text_of(target).as_str());
            out.append(", endpoint: ");
            out.append(opt_id_text_of(endpoint).as_str());
            out.append(" }");
            out
        },
        Endpointing::Infra { node, endpoint } => {
            let mut out = concat2("Infra { node: ", id_text_of(node).as_str());
            out.append(", endpoint: ");
            out.append(opt_id_text_of(endpoint).as_str());
            out.append(" }");
            out
        },
        Endpointing::System { instance, endpoint } => {
            let mut out = concat2("System { instance: ", id_text_of(instance).as_str());
            out.append(", endpoint: ");
            out.append(opt_id_text_of(endpoint).as_str());
            out.append(" }");
            out
        },
        Endpointing::Person { person } => concat3("Person { person: ", id_text_of(person).as_str(), " }"),
    }
}

fn text_of_opt(o: &Option<String>) -> (r: String)
    ensures
        r@ == or_empty(crate::environment::opt_text_view(*o)),
{
    match o {
        Some(x) => x.clone(),
        None => String::new(),
    }
}

fn push_container_items(c: &crate::logical::Container, out: &mut Vec<Item>)
    ensures
        items_view(final(out)@) == items_view(old(out)@) + container_items(c@),
{
    let ghost start = items_view(out@);
    let key = concat2("邏輯/服務/", c.slug.as_str());
    out.push(Item { key, element: Element::Container, label: c.slug.clone(), value: c.name.clone() });
    let ghost head = items_view(out@);
    let ghost defs = c@.endpoints;
    let ghost f = |d: EndpointDefView| item("邏輯/服務/"@ + c@.slug + "/接點/"@ + d.slug, Element::EndpointDef,
        c@.slug + "／"@ + d.slug, protocol_debug(d.protocol));
    let mut k: usize = 0;
    while k < c.endpoints.len()
        invariant
            k <= c.endpoints@.len(),
            defs == c@.endpoints,
            defs == c.endpoints@.map_values(|d: crate::logical::EndpointDef| d@),
            f == (|d: EndpointDefView| item("邏輯/服務/"@ + c@.slug + "/接點/"@ + d.slug, Element::EndpointDef,
                c@.slug + "／"@ + d.slug, protocol_debug(d.protocol))),
            items_view(out@) == head + defs.take(k as int).map_values(f),
        decreases c.endpoints.len() - k,
    {
        let d = &c.endpoints[k];
        let mut key = concat2("邏輯/服務/", c.slug.as_str());
        key.append("/接點/");
        key.append(d.slug.as_str());
        let ghost before = items_view(out@);
        out.push(Item { key, element: Element::EndpointDef, label: concat3(c.slug.as_str(), "／", d.slug.as_str()),
            value: owned(protocol_text(d.protocol)) });
        proof {
            assert(defs[k as int] == d@);
            assert(items_view(out@) =~= before.push(f(defs[k as int])));
            assert(defs.take(k + 1).map_values(f) =~= defs.take(k as int).map_values(f).push(f(defs[k as int])));
        }
        k += 1;
    }
    assert(defs.take(k as int) =~= defs);
    assert(items_view(out@) =~= start + container_items(c@));
}

fn push_logical_items(l: &crate::logical::Logical, out: &mut Vec<Item>)
    ensures
        items_view(final(out)@) == items_view(old(out)@) + logical_items(l@),
{
    let ghost start = items_view(out@);
    let ghost cs = l@.containers;
    let ghost f = |c: ContainerView| container_items(c);
    let mut i: usize = 0;
    while i < l.containers.len()
        invariant
            i <= l.containers@.len(),
            cs == l@.containers,
            f == (|c: ContainerView| container_items(c)),
            items_view(out@) == start + concat_items(cs.take(i as int), f),
        decreases l.containers.len() - i,
    {
        push_container_items(&l.containers[i], out);
        proof {
            assert(cs.take(i + 1).drop_last() =~= cs.take(i as int));
            assert(cs.take(i + 1).last() == l.containers@[i as int]@);
        }
        i += 1;
    }
    assert(cs.take(i as int) =~= cs);
    let ghost mid = items_view(out@);
    let ghost rs = l@.relationships;
    let ghost g = |r: RelationshipView| relationship_item(r);
    let mut j: usize = 0;
    while j < l.relationships.len()
        invariant
            j <= l.relationships@.len(),
            rs == l@.relationships,
            g == (|r: RelationshipView| relationship_item(r)),
            items_view(out@) == mid + rs.take(j as int).map_values(g),
        decreases l.relationships.len() - j,
    {
        let r = &l.relationships[j];
        let ghost before = items_view(out@);
        out.push(Item { key: concat2("邏輯/契約/", r.slug.as_str()), element: Element::Relationship, label: r.slug.clone(),
            value: r.purpose.clone() });
        proof {
            assert(rs[j as int] == r@);
            assert(items_view(out@) =~= before.push(g(rs[j as int])));
            assert(rs.take(j + 1).map_values(g) =~= rs.take(j as int).map_values(g).push(g(rs[j as int])));
        }
        j += 1;
    }
    assert(rs.take(j as int) =~= rs);
}

fn env_path(env: &str, middle: &str, name: &str) -> (r: String)
    ensures
        r@ == "環境/"@ + env@ + middle@ + name@,
{
    let mut out = concat2("環境/", env);
    out.append(middle);
    out.append(name);
    out
}

fn push_instance_items(env: &str, node: &str, i: &crate::environment::ContainerInstance, out: &mut Vec<Item>)
    ensures
        items_view(final(out)@) == items_view(old(out)@) + instance_items(env@, node@, i@),
{
    let ghost start = items_view(out@);
    out.push(Item { key: env_path(env, "/服務實體/", i.slug.as_str()), element: Element::ContainerInstance,
        label: concat3(env, "／", i.slug.as_str()), value: owned(node) });
    let ghost head = items_view(out@);
    let ghost eps = i@.endpoints;
    let ghost f = |ep: EndpointView| item("環境/"@ + env@ + "/服務實體/"@ + i@.slug + "/位址/"@ + ep.slug,
        Element::Address, env@ + "／"@ + i@.slug + "／"@ + ep.slug, or_empty(ep.address));
    let mut k: usize = 0;
    while k < i.endpoints.len()
        invariant
            k <= i.endpoints@.len(),
            eps == i@.endpoints,
            eps == i.endpoints@.map_values(|e: Endpoint| e@),
            f == (|ep: EndpointView| item("環境/"@ + env@ + "/服務實體/"@ + i@.slug + "/位址/"@ + ep.slug,
                Element::Address, env@ + "／"@ + i@.slug + "／"@ + ep.slug, or_empty(ep.address))),
            items_view(out@) == head + eps.take(k as int).map_values(f),
        decreases i.endpoints.len() - k,
    {
        let ep = &i.endpoints[k];
        let mut key = env_path(env, "/服務實體/", i.slug.as_str());
        key.append("/位址/");
        key.append(ep.slug.as_str());
        let mut label = concat3(env, "／", i.slug.as_str());
        label.append("／");
        label.append(ep.slug.as_str());
        let ghost before = items_view(out@);
        out.push(Item { key, element: Element::Address, label, value: text_of_opt(&ep.address) });
        proof {
            assert(eps[k as int] == ep@);
            assert(items_view(out@) =~= before.push(f(eps[k as int])));
            assert(eps.take(k + 1).map_values(f) =~= eps.take(k as int).map_values(f).push(f(eps[k as int])));
        }
        k += 1;
    }
    assert(eps.take(k as int) =~= eps);
    assert(items_view(out@) =~= start + instance_items(env@, node@, i@));
}

fn push_tree_items(env: &str, n: &DeploymentNode, out: &mut Vec<Item>)
    ensures
        items_view(final(out)@) == items_view(old(out)@) + tree_items(env@, n@),
    decreases n,
{
    let ghost start = items_view(out@);
    out.push(Item { key: env_path(env, "/機器/", n.slug.as_str()), element: Element::DeploymentNode,
        label: concat3(env, "／", n.slug.as_str()), value: owned(kind_text(n.kind)) });
    let ghost head = items_view(out@);
    let ghost is = n@.instances;
    let ghost f = |i: ContainerInstanceView| instance_items(env@, n@.slug, i);
    let mut k: usize = 0;
    while k < n.instances.len()
        invariant
            k <= n.instances@.len(),
            is == n@.instances,
            f == (|i: ContainerInstanceView| instance_items(env@, n@.slug, i)),
            items_view(out@) == head + concat_items(is.take(k as int), f),
        decreases n.instances.len() - k,
    {
        push_instance_items(env, n.slug.as_str(), &n.instances[k], out);
        proof {
            assert(is.take(k + 1).drop_last() =~= is.take(k as int));
            assert(is.take(k + 1).last() == n.instances@[k as int]@);
        }
        k += 1;
    }
    assert(is.take(k as int) =~= is);
    let ghost mid = items_view(out@);
    proof {
        lemma_children_view(*n);
    }
    let mut j: usize = 0;
    while j < n.children.len()
        invariant
            j <= n.children@.len(),
            n@.children == crate::environment::nodes_view(n.children@),
            items_view(out@) == mid + forest_items(env@, n@.children.take(j as int)),
        decreases n.children.len() - j,
    {
        push_tree_items(env, &n.children[j], out);
        proof {
            let c = n@.children.take(j + 1);
            assert(c.drop_last() =~= n@.children.take(j as int));
            assert(c.last() == n.children@[j as int]@);
        }
        j += 1;
    }
    assert(n@.children.take(j as int) =~= n@.children);
    assert(items_view(out@) =~= start + tree_items(env@, n@));
}

fn push_infra_items(env: &str, n: &crate::environment::InfrastructureNode, out: &mut Vec<Item>)
    ensures
        items_view(final(out)@) == items_view(old(out)@) + infra_items(env@, n@),
{
    let ghost start = items_view(out@);
    out.push(Item { key: env_path(env, "/設備/", n.slug.as_str()), element: Element::InfrastructureNode,
        label: concat3(env, "／", n.slug.as_str()), value: String::new() });
    proof {
        reveal_strlit("");
    }
    let ghost head = items_view(out@);
    let ghost eps = n@.endpoints;
    let ghost f = |ep: EndpointView| item("環境/"@ + env@ + "/設備/"@ + n@.slug + "/位址/"@ + ep.slug,
        Element::Address, env@ + "／"@ + n@.slug + "／"@ + ep.slug, or_empty(ep.address));
    let mut k: usize = 0;
    while k < n.endpoints.len()
        invariant
            k <= n.endpoints@.len(),
            eps == n@.endpoints,
            eps == n.endpoints@.map_values(|e: Endpoint| e@),
            f == (|ep: EndpointView| item("環境/"@ + env@ + "/設備/"@ + n@.slug + "/位址/"@ + ep.slug,
                Element::Address, env@ + "／"@ + n@.slug + "／"@ + ep.slug, or_empty(ep.address))),
            items_view(out@) == head + eps.take(k as int).map_values(f),
        decreases n.endpoints.len() - k,
    {
        let ep = &n.endpoints[k];
        let mut key = env_path(env, "/設備/", n.slug.as_str());
        key.append("/位址/");
        key.append(ep.slug.as_str());
        let mut label = concat3(env, "／", n.slug.as_str());
        label.append("／");
        label.append(ep.slug.as_str());
        let ghost before = items_view(out@);
        out.push(Item { key, element: Element::Address, label, value: text_of_opt(&ep.address) });
        proof {
            assert(eps[k as int] == ep@);
            assert(items_view(out@) =~= before.push(f(eps[k as int])));
            assert(eps.take(k + 1).map_values(f) =~= eps.take(k as int).map_values(f).push(f(eps[k as int])));
        }
        k += 1;
    }
    assert(eps.take(k as int) =~= eps);
    assert(items_view(out@) =~= start + infra_items(env@, n@));
}

fn serves_name_of(l: &crate::logical::Logical, serves: &Id) -> (r: String)
    ensures
        r@ == serves_name(l@, serves@),
{
    match l.relationship(serves) {
        Some(r) => r.slug.clone(),
        None => serves.to_text(),
    }
}

fn push_env_items(l: &crate::logical::Logical, e: &Environment, out: &mut Vec<Item>)
    ensures
        items_view(final(out)@) == items_view(old(out)@) + env_items(l@, e@),
{
    let ghost start = items_view(out@);
    let env = e.slug.as_str();
    out.push(Item { key: concat2("環境/", env), element: Element::Environment, label: e.slug.clone(), value: e.name.clone() });
    let ghost a = items_view(out@);
    let mut i: usize = 0;
    while i < e.nodes.len()
        invariant
            i <= e.nodes@.len(),
            env@ == e@.slug,
            items_view(out@) == a + forest_items(e@.slug, e@.nodes.take(i as int)),
        decreases e.nodes.len() - i,
    {
        push_tree_items(env, &e.nodes[i], out);
        proof {
            let c = e@.nodes.take(i + 1);
            assert(c.drop_last() =~= e@.nodes.take(i as int));
            assert(c.last() == e.nodes@[i as int]@);
        }
        i += 1;
    }
    assert(e@.nodes.take(i as int) =~= e@.nodes);
    let ghost b = items_view(out@);
    let ghost fi = |n: InfrastructureNodeView| infra_items(e@.slug, n);
    let mut i: usize = 0;
    while i < e.infra.len()
        invariant
            i <= e.infra@.len(),
            env@ == e@.slug,
            fi == (|n: InfrastructureNodeView| infra_items(e@.slug, n)),
            items_view(out@) == b + concat_items(e@.infra.take(i as int), fi),
        decreases e.infra.len() - i,
    {
        push_infra_items(env, &e.infra[i], out);
        proof {
            let c = e@.infra.take(i + 1);
            assert(c.drop_last() =~= e@.infra.take(i as int));
            assert(c.last() == e.infra@[i as int]@);
        }
        i += 1;
    }
    assert(e@.infra.take(i as int) =~= e@.infra);
    let ghost c0 = items_view(out@);
    let ghost fs = |x: SoftwareSystemInstanceView| system_item(e@.slug, x);
    let mut i: usize = 0;
    while i < e.systems.len()
        invariant
            i <= e.systems@.len(),
            env@ == e@.slug,
            fs == (|x: SoftwareSystemInstanceView| system_item(e@.slug, x)),
            items_view(out@) == c0 + e@.systems.take(i as int).map_values(fs),
        decreases e.systems.len() - i,
    {
        let x = &e.systems[i];
        let ghost before = items_view(out@);
        out.push(Item { key: env_path(env, "/外部系統/", x.slug.as_str()), element: Element::SoftwareSystemInstance,
            label: concat3(env, "／", x.slug.as_str()), value: String::new() });
        proof {
            reveal_strlit("");
            assert(e@.systems[i as int] == x@);
            assert(items_view(out@) =~= before.push(fs(e@.systems[i as int])));
            assert(e@.systems.take(i + 1).map_values(fs) =~= e@.systems.take(i as int).map_values(fs).push(fs(e@.systems[i as int])));
        }
        i += 1;
    }
    assert(e@.systems.take(i as int) =~= e@.systems);
    let ghost d = items_view(out@);
    let ghost fc = |c: ConnectionView| connection_item(l@, e@.slug, c);
    let mut i: usize = 0;
    while i < e.connections.len()
        invariant
            i <= e.connections@.len(),
            env@ == e@.slug,
            fc == (|c: ConnectionView| connection_item(l@, e@.slug, c)),
            items_view(out@) == d + e@.connections.take(i as int).map_values(fc),
        decreases e.connections.len() - i,
    {
        let c = &e.connections[i];
        let rid = serves_name_of(l, &c.serves);
        let mut key = env_path(env, "/連線/", rid.as_str());
        key.append("|");
        key.append(end_text_of(&c.from).as_str());
        key.append("|");
        key.append(end_text_of(&c.to).as_str());
        let ghost before = items_view(out@);
        out.push(Item { key, element: Element::Connection, label: concat3(env, "／", rid.as_str()), value: c.purpose.clone() });
        proof {
            assert(e@.connections[i as int] == c@);
            assert(items_view(out@) =~= before.push(fc(e@.connections[i as int])));
            assert(e@.connections.take(i + 1).map_values(fc) =~= e@.connections.take(i as int).map_values(fc).push(fc(e@.connections[i as int])));
        }
        i += 1;
    }
    assert(e@.connections.take(i as int) =~= e@.connections);
    assert(items_view(out@) =~= start + env_items(l@, e@));
}

fn project_items_of(p: &Project) -> (r: Vec<Item>)
    ensures
        items_view(r@) == project_items(p@),
{
    let mut out: Vec<Item> = Vec::new();
    push_logical_items(&p.logical, &mut out);
    assert(items_view(out@) =~= logical_items(p@.logical));
    let ghost a = items_view(out@);
    let ghost es = p@.environments;
    let ghost f = |e: EnvironmentView| env_items(p@.logical, e);
    let mut i: usize = 0;
    while i < p.environments.len()
        invariant
            i <= p.environments@.len(),
            es == p@.environments,
            f == (|e: EnvironmentView| env_items(p@.logical, e)),
            items_view(out@) == a + concat_items(es.take(i as int), f),
        decreases p.environments.len() - i,
    {
        push_env_items(&p.logical, &p.environments[i], &mut out);
        proof {
            let c = es.take(i + 1);
            assert(c.drop_last() =~= es.take(i as int));
            assert(c.last() == p.environments@[i as int]@);
        }
        i += 1;
    }
    assert(es.take(i as int) =~= es);
    out
}

fn upsert_exec(v: &mut Vec<Item>, x: Item)
    ensures
        items_view(final(v)@) == upsert(items_view(old(v)@), x@),
{
    let ghost s0 = items_view(v@);
    let ghost xv = x@;
    let mut i: usize = v.len();
    assert(s0.take(i as int) =~= s0);
    assert(s0.skip(i as int) =~= Seq::<ItemView>::empty());
    loop
        invariant
            i <= v@.len(),
            items_view(v@) == s0,
            items_view(old(v)@) == s0,
            x@ == xv,
            upsert(s0, xv) == upsert(s0.take(i as int), xv) + s0.skip(i as int),
        ensures
            i <= v@.len(),
            items_view(v@) == s0,
            x@ == xv,
            upsert(s0, xv) == upsert(s0.take(i as int), xv) + s0.skip(i as int),
            i > 0 ==> s0[i - 1].key != xv.key && !seq_lt(xv.key, s0[i - 1].key),
        decreases i,
    {
        if i == 0 {
            break;
        }
        let same = text_eq(v[i - 1].key.as_str(), x.key.as_str());
        let less = text_lt(x.key.as_str(), v[i - 1].key.as_str());
        proof {
            let t = s0.take(i as int);
            assert(t.last() == s0[i - 1]);
            assert(s0[i - 1] == v@[i - 1]@);
            assert(t.drop_last() =~= s0.take(i - 1));
        }
        if same {
            v.set(i - 1, x);
            proof {
                let t = s0.take(i as int);
                assert(upsert(t, xv) == s0.take(i - 1).push(xv));
                assert(items_view(v@) =~= s0.take(i - 1).push(xv) + s0.skip(i as int));
            }
            return;
        }
        if !less {
            break;
        }
        proof {
            let t = s0.take(i as int);
            assert(s0.skip(i - 1) =~= seq![s0[i - 1]] + s0.skip(i as int));
            assert(upsert(t, xv) == upsert(s0.take(i - 1), xv).push(s0[i - 1]));
            assert(upsert(s0.take(i - 1), xv).push(s0[i - 1]) + s0.skip(i as int)
                =~= upsert(s0.take(i - 1), xv) + s0.skip(i - 1));
        }
        i -= 1;
    }
    v.insert(i, x);
    proof {
        let t = s0.take(i as int);
        if i > 0 {
            assert(t.last() == s0[i - 1]);
            assert(upsert(t, xv) == t.push(xv));
        } else {
            assert(upsert(t, xv) == seq![xv]);
        }
        assert(items_view(v@) =~= t.push(xv) + s0.skip(i as int));
    }
}

/// The project's inventory: every item once, in key order.
pub fn inventory_of(p: &Project) -> (r: Vec<Item>)
    ensures
        items_view(r@) == inventory(p@),
{
    let all = project_items_of(p);
    let ghost xs = items_view(all@);
    let mut out: Vec<Item> = Vec::new();
    let mut rest = all;
    let n = rest.len();
    let mut k: usize = 0;
    while rest.len() > 0
        invariant
            xs.len() == n,
            k + rest@.len() == xs.len(),
            items_view(rest@) == xs.skip(k as int),
            items_view(out@) == upsert_all(seq![], xs.take(k as int)),
        decreases rest.len(),
    {
        let ghost before = rest@;
        let x = rest.remove(0);
        proof {
            assert(before[0] == x);
            assert(items_view(before)[0] == x@);
            assert(xs.skip(k as int)[0] == xs[k as int]);
            assert(xs.take(k + 1).drop_last() =~= xs.take(k as int));
            assert(xs.take(k + 1).last() == xs[k as int]);
            assert(rest@ =~= before.subrange(1, before.len() as int));
            assert(xs.skip(k as int).subrange(1, xs.skip(k as int).len() as int) =~= xs.skip(k + 1));
            assert(items_view(rest@) =~= xs.skip(k + 1));
        }
        upsert_exec(&mut out, x);
        k += 1;
    }
    assert(xs.take(k as int) =~= xs);
    out
}

// ---- comparing two inventories ----

pub open spec fn item_keys(s: Seq<ItemView>) -> Seq<Seq<char>> {
    s.map_values(|x: ItemView| x.key)
}

/// The change an item of the new inventory is: added when the old one has no item
/// with its key, updated when that item's value differs, none otherwise.
pub open spec fn change_of(before: Seq<ItemView>, a: ItemView) -> Option<ChangeView> {
    match first_index(item_keys(before), a.key) {
        None => Some(ChangeView { kind: ChangeKind::Added, element: a.element, label: a.label, before: None, after: a.value }),
        Some(k) => if before[k].value != a.value {
            Some(ChangeView { kind: ChangeKind::Updated, element: a.element, label: a.label, before: Some(before[k].value), after: a.value })
        } else {
            None
        },
    }
}

pub open spec fn raw_changes(before: Seq<ItemView>, after: Seq<ItemView>) -> Seq<ChangeView>
    decreases after.len(),
{
    if after.len() == 0 {
        seq![]
    } else {
        raw_changes(before, after.drop_last()) + match change_of(before, after.last()) {
            Some(c) => seq![c],
            None => seq![],
        }
    }
}

pub open spec fn unchanged_count(before: Seq<ItemView>, after: Seq<ItemView>) -> nat
    decreases after.len(),
{
    if after.len() == 0 {
        0
    } else {
        unchanged_count(before, after.drop_last()) + if change_of(before, after.last()) is None { 1nat } else { 0nat }
    }
}

/// Kind first, then label: changes of one kind stay together.
pub open spec fn change_lt(a: ChangeView, b: ChangeView) -> bool {
    element_rank(a.element) < element_rank(b.element)
        || (element_rank(a.element) == element_rank(b.element) && seq_lt(a.label, b.label))
}

pub open spec fn insert_change(s: Seq<ChangeView>, x: ChangeView) -> Seq<ChangeView>
    decreases s.len(),
{
    if s.len() == 0 {
        seq![x]
    } else if change_lt(x, s.last()) {
        insert_change(s.drop_last(), x).push(s.last())
    } else {
        s.push(x)
    }
}

/// A stable sort of changes.
pub open spec fn sort_changes(s: Seq<ChangeView>) -> Seq<ChangeView>
    decreases s.len(),
{
    if s.len() == 0 {
        seq![]
    } else {
        insert_change(sort_changes(s.drop_last()), s.last())
    }
}

/// The environments the first `k` rows name, each once, in order of first mention.
pub open spec fn touched(s: SheetView, k: int) -> Seq<Seq<char>>
    decreases k,
{
    if k <= 0 {
        seq![]
    } else {
        let seen = touched(s, k - 1);
        let v = crate::text::trim_spec(value_spec(s, k - 1, "environment"@));
        if v.len() > 0 && !seen.contains(v) { seen.push(v) } else { seen }
    }
}

/// The preview of an import: the changes from the project before to the project after,
/// kind by kind; how many of the sheet's items were there already; the importer's
/// warnings as text; and the environments the sheet touches.
pub open spec fn plan_spec(before: ProjectView, after: ProjectView, warnings: Seq<ImportWarningView>, s: SheetView) -> PlanView {
    PlanView {
        changes: sort_changes(raw_changes(inventory(before), inventory(after))),
        unchanged: unchanged_count(inventory(before), inventory(after)) as u32,
        warnings: warnings.map_values(|w: ImportWarningView| warning_text(w)),
        environments: touched(s, s.rows.len() as int),
    }
}

fn find_key(v: &Vec<Item>, key: &str) -> (r: Option<usize>)
    ensures
        match first_index(item_keys(items_view(v@)), key@) {
            Some(k) => r matches Some(x) && x as int == k,
            None => r is None,
        },
{
    let ghost ks = item_keys(items_view(v@));
    proof {
        crate::logical::lemma_first_index(ks, key@);
    }
    let mut i: usize = 0;
    while i < v.len()
        invariant
            i <= v@.len(),
            ks == item_keys(items_view(v@)),
            forall|j: int| 0 <= j < i ==> ks[j] != key@,
        decreases v.len() - i,
    {
        assert(ks[i as int] == v@[i as int].key@);
        if text_eq(v[i].key.as_str(), key) {
            proof {
                crate::logical::lemma_first_index_unique(ks, key@, i as int);
            }
            return Some(i);
        }
        i += 1;
    }
    None
}

fn change_less(a: &Change, b: &Change) -> (r: bool)
    ensures
        r == change_lt(a@, b@),
{
    let x = element_number(a.element);
    let y = element_number(b.element);
    x < y || (x == y && text_lt(a.label.as_str(), b.label.as_str()))
}

fn insert_change_exec(v: &mut Vec<Change>, x: Change)
    ensures
        changes_view(final(v)@) == insert_change(changes_view(old(v)@), x@),
{
    let ghost s0 = changes_view(v@);
    let mut i: usize = v.len();
    assert(s0.take(i as int) =~= s0);
    assert(s0.skip(i as int) =~= Seq::<ChangeView>::empty());
    while i > 0 && change_less(&x, &v[i - 1])
        invariant
            i <= v@.len(),
            changes_view(v@) == s0,
            insert_change(s0, x@) == insert_change(s0.take(i as int), x@) + s0.skip(i as int),
        decreases i,
    {
        proof {
            let t = s0.take(i as int);
            assert(t.last() == s0[i - 1]);
            assert(t.drop_last() =~= s0.take(i - 1));
            assert(s0.skip(i - 1) =~= seq![s0[i - 1]] + s0.skip(i as int));
            assert(insert_change(t, x@) == insert_change(s0.take(i - 1), x@).push(s0[i - 1]));
            assert(insert_change(s0.take(i - 1), x@).push(s0[i - 1]) + s0.skip(i as int)
                =~= insert_change(s0.take(i - 1), x@) + s0.skip(i - 1));
        }
        i -= 1;
    }
    let ghost xv = x@;
    v.insert(i, x);
    proof {
        let t = s0.take(i as int);
        if i > 0 {
            assert(t.last() == s0[i - 1]);
            assert(insert_change(t, xv) == t.push(xv));
        } else {
            assert(insert_change(t, xv) == seq![xv]);
        }
        assert(changes_view(v@) =~= t.push(xv) + s0.skip(i as int));
    }
}

fn sort_changes_exec(unsorted: Vec<Change>, Ghost(all): Ghost<Seq<ChangeView>>) -> (r: Vec<Change>)
    requires
        changes_view(unsorted@) == all,
    ensures
        changes_view(r@) == sort_changes(all),
{
    let mut out: Vec<Change> = Vec::new();
    let mut rest = unsorted;
    let n = rest.len();
    let mut k: usize = 0;
    while rest.len() > 0
        invariant
            all.len() == n,
            k + rest@.len() == all.len(),
            changes_view(rest@) == all.skip(k as int),
            changes_view(out@) == sort_changes(all.take(k as int)),
        decreases rest.len(),
    {
        let ghost before = rest@;
        let x = rest.remove(0);
        proof {
            assert(before[0] == x);
            assert(changes_view(before)[0] == x@);
            assert(all.skip(k as int)[0] == all[k as int]);
            assert(all.take(k + 1).drop_last() =~= all.take(k as int));
            assert(all.take(k + 1).last() == all[k as int]);
            assert(rest@ =~= before.subrange(1, before.len() as int));
            assert(all.skip(k as int).subrange(1, all.skip(k as int).len() as int) =~= all.skip(k + 1));
            assert(changes_view(rest@) =~= all.skip(k + 1));
        }
        insert_change_exec(&mut out, x);
        k += 1;
    }
    assert(all.take(k as int) =~= all);
    out
}

fn contains_string(v: &Vec<String>, x: &str) -> (r: bool)
    ensures
        r == texts_view(v@).contains(x@),
{
    let mut i: usize = 0;
    while i < v.len()
        invariant
            i <= v@.len(),
            forall|j: int| 0 <= j < i ==> texts_view(v@)[j] != x@,
        decreases v.len() - i,
    {
        if text_eq(v[i].as_str(), x) {
            assert(texts_view(v@)[i as int] == x@);
            return true;
        }
        i += 1;
    }
    false
}

fn trim_owned(s: &str) -> (r: String)
    ensures
        r@ == crate::text::trim_spec(s@),
{
    crate::text::trimmed(s)
}

/// The environments the sheet names, each once, in order of first mention.
fn touched_environments(sheet: &Sheet) -> (r: Vec<String>)
    ensures
        texts_view(r@) == touched(sheet@, sheet@.rows.len() as int),
{
    let mut seen: Vec<String> = Vec::new();
    let n = sheet.row_count();
    let mut row: usize = 0;
    while row < n
        invariant
            row <= n,
            n == sheet@.rows.len(),
            texts_view(seen@) == touched(sheet@, row as int),
        decreases n - row,
    {
        let v = trim_owned(sheet.value(row, "environment"));
        let ghost before = texts_view(seen@);
        if !v.as_str().is_empty() && !contains_string(&seen, v.as_str()) {
            seen.push(v);
            assert(texts_view(seen@) =~= before.push(touched(sheet@, row + 1).last()));
        }
        row += 1;
    }
    seen
}

/// The preview from the project before and after an import, the importer's warnings
/// and the sheet.
pub fn plan_from(before: &Project, after: &Project, warnings: &Vec<ImportWarning>, sheet: &Sheet) -> (r: Plan)
    ensures
        r@ == plan_spec(before@, after@, warnings_view(warnings@), sheet@),
{
    let old_items = inventory_of(before);
    let new_items = inventory_of(after);
    let ghost b = items_view(old_items@);
    let ghost a = items_view(new_items@);
    let mut raw: Vec<Change> = Vec::new();
    let mut unchanged: usize = 0;
    let mut i: usize = 0;
    while i < new_items.len()
        invariant
            i <= new_items@.len(),
            b == items_view(old_items@),
            a == items_view(new_items@),
            changes_view(raw@) == raw_changes(b, a.take(i as int)),
            unchanged == unchanged_count(b, a.take(i as int)),
            unchanged <= i,
        decreases new_items.len() - i,
    {
        let x = &new_items[i];
        proof {
            assert(a.take(i + 1).drop_last() =~= a.take(i as int));
            assert(a.take(i + 1).last() == x@);
        }
        let ghost before_raw = changes_view(raw@);
        proof {
            crate::logical::lemma_first_index(item_keys(b), x.key@);
        }
        match find_key(&old_items, x.key.as_str()) {
            None => {
                raw.push(Change { kind: ChangeKind::Added, element: x.element, label: x.label.clone(), before: None,
                    after: x.value.clone() });
                assert(changes_view(raw@) =~= before_raw.push(raw@.last()@));
            },
            Some(k) => {
                assert(b[k as int] == old_items@[k as int]@);
                if !text_eq(old_items[k].value.as_str(), x.value.as_str()) {
                    raw.push(Change { kind: ChangeKind::Updated, element: x.element, label: x.label.clone(),
                        before: Some(old_items[k].value.clone()), after: x.value.clone() });
                    assert(changes_view(raw@) =~= before_raw.push(raw@.last()@));
                } else {
                    unchanged += 1;
                    assert(changes_view(raw@) =~= before_raw + Seq::<ChangeView>::empty());
                }
            },
        }
        i += 1;
    }
    assert(a.take(i as int) =~= a);
    let ghost all = changes_view(raw@);
    let changes = sort_changes_exec(raw, Ghost(all));
    let ghost ws = warnings_view(warnings@);
    let mut texts: Vec<String> = Vec::new();
    let mut w: usize = 0;
    while w < warnings.len()
        invariant
            w <= warnings@.len(),
            ws == warnings_view(warnings@),
            texts_view(texts@) == ws.take(w as int).map_values(|x: ImportWarningView| warning_text(x)),
        decreases warnings.len() - w,
    {
        let ghost before = texts_view(texts@);
        texts.push(warnings[w].describe());
        proof {
            assert(ws[w as int] == warnings@[w as int]@);
            assert(texts_view(texts@) =~= before.push(warning_text(ws[w as int])));
            assert(ws.take(w + 1).map_values(|x: ImportWarningView| warning_text(x)) =~= ws.take(w as int).map_values(
                |x: ImportWarningView| warning_text(x)).push(warning_text(ws[w as int])));
        }
        w += 1;
    }
    assert(ws.take(w as int) =~= ws);
    Plan { changes, unchanged: unchanged as u32, warnings: texts, environments: touched_environments(sheet) }
}

/// `pl` is the preview of an import of the sheet into `p0` that left `p1`: `p1` is what
/// a successful import leaves, and the plan compares the two, with the import's warnings
/// (the unknown columns first).
pub open spec fn previewed(p0: ProjectView, p1: ProjectView, pl: PlanView, s: SheetView) -> bool {
    exists|w: Seq<ImportWarningView>, n: nat| #![trigger plan_spec(p0, p1, w, s), imported(p0, p1, s, n)]
        pl == plan_spec(p0, p1, w, s) && imported(p0, p1, s, n)
        && w.take(unknown_columns(s).len() as int) == unknown_columns(s)
}

/// What importing the sheet would do, worked out on a copy of the project; returned
/// with that copy, so that applying uses exactly what was previewed (running the import
/// again would give new ids). The project itself is not touched.
pub fn plan(project: &Project, sheet: &Sheet) -> (r: Result<(Plan, Project), ImportError>)
    requires
        sheet@.rows.len() < usize::MAX / 4,
        missing_columns(sheet@).len() == 0 ==> forall|i: int| 0 <= i < sheet@.rows.len()
            && first_row_error(sheet@, i) is None ==> #[trigger] sites_apart(sheet@, i),
    ensures
        match sheet_error(sheet@) {
            Some(e) => r matches Err(x) && x@ == e,
            None => r is Ok,
        },
        r matches Ok(v) ==> previewed(project@, v.1@, v.0@, sheet@),
{
    let mut after = project.duplicate();
    match import(&mut after, sheet) {
        Ok(report) => {
            let pl = plan_from(project, &after, &report.warnings, sheet);
            let ghost w = warnings_view(report.warnings@);
            assert(pl@ == plan_spec(project@, after@, w, sheet@));
            assert(project_kept(project@, after@));
            let out = (pl, after);
            assert(out.0@ == plan_spec(project@, out.1@, w, sheet@));
            let ghost n = report.connections as nat;
            assert(imported(project@, out.1@, sheet@, n));
            assert(w.take(unknown_columns(sheet@).len() as int) == unknown_columns(sheet@));
            assert(out.0@ == plan_spec(project@, out.1@, w, sheet@) && imported(project@, out.1@, sheet@, n)
                && w.take(unknown_columns(sheet@).len() as int) == unknown_columns(sheet@));
            assert(previewed(project@, out.1@, out.0@, sheet@));
            Ok(out)
        },
        Err(e) => Err(e),
    }
}

} // verus!
