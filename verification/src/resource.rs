//! Viewing, adding, changing and deleting the elements of a model.
//!
//! Editing by lint ("fix what lint complains about") assumes that a model exists, but
//! the lint of an empty project is empty: nothing to fix, nothing to press. This is
//! the authoring side: first the master copy, then lint has something to say.
//!
//! One [`Resource`] (what) with three edits (add, change, delete) instead of a
//! variant per kind and action. Deleting leaves references dangling on purpose: a
//! cascade could remove dozens of things at once, and L012 names what was left.

use vstd::prelude::*;
use crate::{Project, ProjectView, environment_ids};
use crate::environment::{env_instances, infra_ids, instance_ids, instance_refs_view, system_instance_ids, ContainerInstance, ContainerInstanceView, DeploymentNode, DeploymentNodeView, Endpoint,
    EndpointView, Environment, EnvironmentView, InfrastructureNode, InfrastructureNodeView, NodeKind,
    SoftwareSystemInstance, SoftwareSystemInstanceView, nodes_view, lemma_children_view};
use crate::duplicate::{Duplicate, views};
use crate::edit::{EditError, EditErrorView, env_outcome, with_infra, with_nodes, with_systems};
use crate::tree::{AddChild, AddInstance, SetNodeFields, TakeInstance, add_child_step, add_instance_step, forest_apply,
    forest_op, forest_size, lemma_size_of_member, set_node_fields_step, take_instance_step, tree_size, with_children};
use crate::id::Id;
use crate::keyed::{Keyed, Named, entries_view, find_key, keys, not_key, pairs, pairs_of, put, put_key, retain_key};
use crate::text::{trim_spec, trimmed};
use crate::logical::{Container, ContainerView, EndpointDef, EndpointDefView, Logical, LogicalView, Person,
    PersonView, Protocol, Relationship, RelationshipEnd, RelationshipEndView, RelationshipView, SoftwareSystem,
    SoftwareSystemView, first_index, first_match, lemma_first_index, lemma_first_index_contains, lemma_first_match,
    lemma_first_match_unique};

verus! {

/// One element of the model that can be added, changed or deleted. It carries the
/// whole value, not a difference.
#[derive(Debug, Clone, PartialEq, Eq)]
pub enum Resource {
    Person(Person),
    System(SoftwareSystem),
    Container(Container),
    /// An endpoint definition hangs on a service or an external system: its owner.
    EndpointDef { owner: Id, def: EndpointDef },
    Relationship(Relationship),
    Environment(Environment),
    /// A site, machine, VM or Linux container; `within` is its parent.
    Node { environment: Id, within: Option<Id>, node: DeploymentNode },
    /// A VIP device such as an F5.
    Infra { environment: Id, node: InfrastructureNode },
    /// A VIP on a device. Devices realise nothing logical, so its endpoint has no `def`.
    InfraEndpoint { environment: Id, node: Id, endpoint: Endpoint },
    /// A service landing on a machine; `node` is the machine it runs on.
    Instance { environment: Id, node: Id, instance: ContainerInstance },
    /// An external system's landing in the environment.
    SystemInstance { environment: Id, instance: SoftwareSystemInstance },
}

pub enum ResourceView {
    Person(PersonView),
    System(SoftwareSystemView),
    Container(ContainerView),
    EndpointDef { owner: Seq<char>, def: EndpointDefView },
    Relationship(RelationshipView),
    Environment(EnvironmentView),
    Node { environment: Seq<char>, within: Option<Seq<char>>, node: DeploymentNodeView },
    Infra { environment: Seq<char>, node: InfrastructureNodeView },
    InfraEndpoint { environment: Seq<char>, node: Seq<char>, endpoint: EndpointView },
    Instance { environment: Seq<char>, node: Seq<char>, instance: ContainerInstanceView },
    SystemInstance { environment: Seq<char>, instance: SoftwareSystemInstanceView },
}

impl View for Resource {
    type V = ResourceView;

    open spec fn view(&self) -> ResourceView {
        match self {
            Resource::Person(p) => ResourceView::Person(p@),
            Resource::System(s) => ResourceView::System(s@),
            Resource::Container(c) => ResourceView::Container(c@),
            Resource::EndpointDef { owner, def } => ResourceView::EndpointDef { owner: owner@, def: def@ },
            Resource::Relationship(r) => ResourceView::Relationship(r@),
            Resource::Environment(e) => ResourceView::Environment(e@),
            Resource::Node { environment, within, node } => ResourceView::Node {
                environment: environment@,
                within: crate::environment::opt_id_view(*within),
                node: node@,
            },
            Resource::Infra { environment, node } => ResourceView::Infra { environment: environment@, node: node@ },
            Resource::InfraEndpoint { environment, node, endpoint } => ResourceView::InfraEndpoint {
                environment: environment@,
                node: node@,
                endpoint: endpoint@,
            },
            Resource::Instance { environment, node, instance } => ResourceView::Instance {
                environment: environment@,
                node: node@,
                instance: instance@,
            },
            Resource::SystemInstance { environment, instance } => ResourceView::SystemInstance {
                environment: environment@,
                instance: instance@,
            },
        }
    }
}

pub open spec fn resource_id(r: ResourceView) -> Seq<char> {
    match r {
        ResourceView::Person(p) => p.id,
        ResourceView::System(s) => s.id,
        ResourceView::Container(c) => c.id,
        ResourceView::EndpointDef { def, .. } => def.id,
        ResourceView::Relationship(x) => x.id,
        ResourceView::Environment(e) => e.id,
        ResourceView::Node { node, .. } => node.id,
        ResourceView::Infra { node, .. } => node.id,
        ResourceView::InfraEndpoint { endpoint, .. } => endpoint.id,
        ResourceView::Instance { instance, .. } => instance.id,
        ResourceView::SystemInstance { instance, .. } => instance.id,
    }
}

/// What the undo labels call the element: its kind name, but a service's landing on a
/// machine is `落地` there.
pub open spec fn resource_label_noun(r: ResourceView) -> Seq<char> {
    match r {
        ResourceView::Instance { .. } => "落地"@,
        _ => resource_kind_name(r),
    }
}

pub open spec fn resource_kind_name(r: ResourceView) -> Seq<char> {
    match r {
        ResourceView::Person(_) => "人"@,
        ResourceView::System(_) => "系統"@,
        ResourceView::Container(_) => "服務"@,
        ResourceView::EndpointDef { .. } => "接點定義"@,
        ResourceView::Relationship(_) => "契約"@,
        ResourceView::Environment(_) => "環境"@,
        ResourceView::Node { .. } => "機器"@,
        ResourceView::Infra { .. } => "設備"@,
        ResourceView::InfraEndpoint { .. } => "設備接點"@,
        ResourceView::Instance { .. } => "服務實體"@,
        ResourceView::SystemInstance { .. } => "外部系統落地"@,
    }
}

pub open spec fn resource_slug(r: ResourceView) -> Seq<char> {
    match r {
        ResourceView::Person(p) => p.slug,
        ResourceView::System(s) => s.slug,
        ResourceView::Container(c) => c.slug,
        ResourceView::EndpointDef { def, .. } => def.slug,
        ResourceView::Relationship(x) => x.slug,
        ResourceView::Environment(e) => e.slug,
        ResourceView::Node { node, .. } => node.slug,
        ResourceView::Infra { node, .. } => node.slug,
        ResourceView::InfraEndpoint { endpoint, .. } => endpoint.slug,
        ResourceView::Instance { instance, .. } => instance.slug,
        ResourceView::SystemInstance { instance, .. } => instance.slug,
    }
}

/// What is being done to a resource; picks the undo label.
#[derive(Debug, Clone, Copy, PartialEq, Eq, Structural)]
pub enum Verb {
    Add,
    Update,
    Delete,
}

impl Resource {
    /// The element's id; adding, changing and deleting all match by it.
    pub fn id(&self) -> (r: &Id)
        ensures
            r@ == resource_id(self@),
    {
        match self {
            Resource::Person(p) => &p.id,
            Resource::System(s) => &s.id,
            Resource::Container(c) => &c.id,
            Resource::EndpointDef { def, .. } => &def.id,
            Resource::Relationship(r) => &r.id,
            Resource::Environment(e) => &e.id,
            Resource::Node { node, .. } => &node.id,
            Resource::Infra { node, .. } => &node.id,
            Resource::InfraEndpoint { endpoint, .. } => &endpoint.id,
            Resource::Instance { instance, .. } => &instance.id,
            Resource::SystemInstance { instance, .. } => &instance.id,
        }
    }

    /// The name of its kind, such as `服務`.
    pub fn kind_name(&self) -> (r: &'static str)
        ensures
            r@ == resource_kind_name(self@),
    {
        match self {
            Resource::Person(_) => "人",
            Resource::System(_) => "系統",
            Resource::Container(_) => "服務",
            Resource::EndpointDef { .. } => "接點定義",
            Resource::Relationship(_) => "契約",
            Resource::Environment(_) => "環境",
            Resource::Node { .. } => "機器",
            Resource::Infra { .. } => "設備",
            Resource::InfraEndpoint { .. } => "設備接點",
            Resource::Instance { .. } => "服務實體",
            Resource::SystemInstance { .. } => "外部系統落地",
        }
    }

    /// Its display name, for messages.
    pub fn slug(&self) -> (r: &str)
        ensures
            r@ == resource_slug(self@),
    {
        match self {
            Resource::Person(p) => p.slug.as_str(),
            Resource::System(s) => s.slug.as_str(),
            Resource::Container(c) => c.slug.as_str(),
            Resource::EndpointDef { def, .. } => def.slug.as_str(),
            Resource::Relationship(r) => r.slug.as_str(),
            Resource::Environment(e) => e.slug.as_str(),
            Resource::Node { node, .. } => node.slug.as_str(),
            Resource::Infra { node, .. } => node.slug.as_str(),
            Resource::InfraEndpoint { endpoint, .. } => endpoint.slug.as_str(),
            Resource::Instance { instance, .. } => instance.slug.as_str(),
            Resource::SystemInstance { instance, .. } => instance.slug.as_str(),
        }
    }

    /// Labels such as `新增服務` or `刪除契約`.
    pub fn kind_name_label(&self, verb: Verb) -> (r: &'static str)
        ensures
            r@ == verb_label(verb) + resource_label_noun(self@),
    {
        let r: &'static str = match (verb, self) {
            (Verb::Add, Resource::Person(_)) => "新增人",
            (Verb::Add, Resource::System(_)) => "新增系統",
            (Verb::Add, Resource::Container(_)) => "新增服務",
            (Verb::Add, Resource::EndpointDef { .. }) => "新增接點定義",
            (Verb::Add, Resource::Relationship(_)) => "新增契約",
            (Verb::Add, Resource::Environment(_)) => "新增環境",
            (Verb::Add, Resource::Node { .. }) => "新增機器",
            (Verb::Add, Resource::Infra { .. }) => "新增設備",
            (Verb::Add, Resource::InfraEndpoint { .. }) => "新增設備接點",
            (Verb::Add, Resource::Instance { .. }) => "新增落地",
            (Verb::Add, Resource::SystemInstance { .. }) => "新增外部系統落地",
            (Verb::Delete, Resource::Person(_)) => "刪除人",
            (Verb::Delete, Resource::System(_)) => "刪除系統",
            (Verb::Delete, Resource::Container(_)) => "刪除服務",
            (Verb::Delete, Resource::EndpointDef { .. }) => "刪除接點定義",
            (Verb::Delete, Resource::Relationship(_)) => "刪除契約",
            (Verb::Delete, Resource::Environment(_)) => "刪除環境",
            (Verb::Delete, Resource::Node { .. }) => "刪除機器",
            (Verb::Delete, Resource::Infra { .. }) => "刪除設備",
            (Verb::Delete, Resource::InfraEndpoint { .. }) => "刪除設備接點",
            (Verb::Delete, Resource::Instance { .. }) => "刪除落地",
            (Verb::Delete, Resource::SystemInstance { .. }) => "刪除外部系統落地",
            (Verb::Update, Resource::Person(_)) => "修改人",
            (Verb::Update, Resource::System(_)) => "修改系統",
            (Verb::Update, Resource::Container(_)) => "修改服務",
            (Verb::Update, Resource::EndpointDef { .. }) => "修改接點定義",
            (Verb::Update, Resource::Relationship(_)) => "修改契約",
            (Verb::Update, Resource::Environment(_)) => "修改環境",
            (Verb::Update, Resource::Node { .. }) => "修改機器",
            (Verb::Update, Resource::Infra { .. }) => "修改設備",
            (Verb::Update, Resource::InfraEndpoint { .. }) => "修改設備接點",
            (Verb::Update, Resource::Instance { .. }) => "修改落地",
            (Verb::Update, Resource::SystemInstance { .. }) => "修改外部系統落地",
        };
        proof {
            reveal_strlit("新增人");
            reveal_strlit("新增系統");
            reveal_strlit("新增服務");
            reveal_strlit("新增接點定義");
            reveal_strlit("新增契約");
            reveal_strlit("新增環境");
            reveal_strlit("新增機器");
            reveal_strlit("新增設備");
            reveal_strlit("新增設備接點");
            reveal_strlit("新增落地");
            reveal_strlit("新增外部系統落地");
            reveal_strlit("刪除人");
            reveal_strlit("刪除系統");
            reveal_strlit("刪除服務");
            reveal_strlit("刪除接點定義");
            reveal_strlit("刪除契約");
            reveal_strlit("刪除環境");
            reveal_strlit("刪除機器");
            reveal_strlit("刪除設備");
            reveal_strlit("刪除設備接點");
            reveal_strlit("刪除落地");
            reveal_strlit("刪除外部系統落地");
            reveal_strlit("修改人");
            reveal_strlit("修改系統");
            reveal_strlit("修改服務");
            reveal_strlit("修改接點定義");
            reveal_strlit("修改契約");
            reveal_strlit("修改環境");
            reveal_strlit("修改機器");
            reveal_strlit("修改設備");
            reveal_strlit("修改設備接點");
            reveal_strlit("修改落地");
            reveal_strlit("修改外部系統落地");
            reveal_strlit("新增");
            reveal_strlit("刪除");
            reveal_strlit("修改");
            reveal_strlit("人");
            reveal_strlit("系統");
            reveal_strlit("服務");
            reveal_strlit("接點定義");
            reveal_strlit("契約");
            reveal_strlit("環境");
            reveal_strlit("機器");
            reveal_strlit("設備");
            reveal_strlit("設備接點");
            reveal_strlit("服務實體");
            reveal_strlit("外部系統落地");
            reveal_strlit("落地");
        }
        r
    }
}

pub open spec fn verb_label(v: Verb) -> Seq<char> {
    match v {
        Verb::Add => "新增"@,
        Verb::Update => "修改"@,
        Verb::Delete => "刪除"@,
    }
}

/// Which kind of resource [`blank`] makes.
#[derive(Debug, Clone, Copy, PartialEq, Eq, Structural)]
pub enum Kind {
    Person,
    System,
    Container,
    EndpointDef,
    Relationship,
    Environment,
    Node,
    Infra,
    InfraEndpoint,
    Instance,
    SystemInstance,
}


pub open spec fn or_empty(o: Option<Seq<char>>) -> Seq<char> {
    match o {
        Some(x) => x,
        None => Seq::empty(),
    }
}

/// The blank resource of a kind, with the given id: empty names, no children, the
/// environment and owner where the kind has them (empty when not given).
pub open spec fn blank_spec(kind: Kind, environment: Option<Seq<char>>, owner: Option<Seq<char>>, id: Seq<char>) -> ResourceView {
    let e = or_empty(environment);
    let o = or_empty(owner);
    let none = Seq::<char>::empty();
    match kind {
        Kind::Person => ResourceView::Person(PersonView { id, slug: none, name: none, memo: none }),
        Kind::System => ResourceView::System(SoftwareSystemView {
            id,
            slug: none,
            name: none,
            external: true,
            endpoints: seq![],
            memo: none,
        }),
        Kind::Container => ResourceView::Container(ContainerView {
            id,
            slug: none,
            name: none,
            system: o,
            endpoints: seq![],
            memo: none,
        }),
        Kind::EndpointDef => ResourceView::EndpointDef {
            owner: o,
            def: EndpointDefView { id, slug: none, protocol: Protocol::Tcp, memo: none },
        },
        Kind::Relationship => ResourceView::Relationship(RelationshipView {
            id,
            slug: none,
            purpose: none,
            from: RelationshipEndView::Container(none),
            to: RelationshipEndView::Container(none),
            to_endpoint: none,
            memo: none,
        }),
        Kind::Environment => ResourceView::Environment(EnvironmentView {
            id,
            slug: none,
            name: none,
            nodes: seq![],
            infra: seq![],
            systems: seq![],
            connections: seq![],
            memo: none,
        }),
        Kind::Node => ResourceView::Node {
            environment: e,
            within: owner,
            node: DeploymentNodeView {
                id,
                slug: none,
                kind: NodeKind::VirtualMachine,
                children: seq![],
                instances: seq![],
                memo: none,
            },
        },
        Kind::Infra => ResourceView::Infra { environment: e, node: InfrastructureNodeView { id, slug: none, endpoints: seq![] } },
        Kind::InfraEndpoint => ResourceView::InfraEndpoint {
            environment: e,
            node: o,
            endpoint: EndpointView { id, slug: none, def: None, protocol: Protocol::Tcp, address: None },
        },
        Kind::Instance => ResourceView::Instance {
            environment: e,
            node: o,
            instance: ContainerInstanceView {
                id,
                slug: none,
                container: none,
                endpoints: seq![],
                standalone: false,
                memo: none,
            },
        },
        Kind::SystemInstance => ResourceView::SystemInstance {
            environment: e,
            instance: SoftwareSystemInstanceView { id, slug: none, system: o, endpoints: seq![], standalone: false },
        },
    }
}

fn empty_id() -> (r: Id)
    ensures
        r@ == Seq::<char>::empty(),
{
    proof {
        reveal_strlit("");
    }
    let r = Id::new("");
    assert(r@ =~= Seq::<char>::empty());
    r
}

fn id_or_empty(o: Option<Id>) -> (r: Id)
    ensures
        r@ == or_empty(crate::environment::opt_id_view(o)),
{
    match o {
        Some(x) => {
            assert(crate::environment::opt_id_view(Some(x)) == Some(x@));
            x
        },
        None => {
            proof {
                reveal_strlit("");
            }
            let r = Id::new("");
            assert(r@ =~= Seq::<char>::empty());
            r
        },
    }
}

/// A blank new resource to start a form from. Its id is given out here, so that
/// applying the addition is deterministic and undo and redo replay the same element.
pub fn blank(kind: Kind, environment: Option<Id>, owner: Option<Id>) -> (r: Resource)
    ensures
        r@ == blank_spec(kind, crate::environment::opt_id_view(environment), crate::environment::opt_id_view(owner), resource_id(r@)),
        resource_id(r@).len() == 36,
{
    let id = Id::generate();
    let ghost ev = crate::environment::opt_id_view(environment);
    let ghost ov = crate::environment::opt_id_view(owner);
    proof {
        reveal_strlit("");
    }
    match kind {
        Kind::Person => {
            let r = Resource::Person(Person { id, slug: String::new(), name: String::new(), memo: String::new() });
            assert(r@ == blank_spec(kind, ev, ov, resource_id(r@)));
            r
        },
        Kind::System => {
            let x = SoftwareSystem {
                id,
                slug: String::new(),
                name: String::new(),
                external: true,
                endpoints: Vec::new(),
                memo: String::new(),
            };
            assert(x@.endpoints =~= Seq::<EndpointDefView>::empty());
            let r = Resource::System(x);
            assert(r@ == blank_spec(kind, ev, ov, resource_id(r@)));
            r
        },
        Kind::Container => {
            let x = Container {
                id,
                slug: String::new(),
                name: String::new(),
                system: id_or_empty(owner),
                endpoints: Vec::new(),
                memo: String::new(),
            };
            assert(x@.endpoints =~= Seq::<EndpointDefView>::empty());
            let r = Resource::Container(x);
            assert(r@ == blank_spec(kind, ev, ov, resource_id(r@)));
            r
        },
        Kind::EndpointDef => {
            let r = Resource::EndpointDef {
                owner: id_or_empty(owner),
                def: EndpointDef { id, slug: String::new(), protocol: Protocol::Tcp, memo: String::new() },
            };
            assert(r@ == blank_spec(kind, ev, ov, resource_id(r@)));
            r
        },
        Kind::Relationship => {
            let r = Resource::Relationship(Relationship {
                id,
                slug: String::new(),
                purpose: String::new(),
                from: RelationshipEnd::Container(empty_id()),
                to: RelationshipEnd::Container(empty_id()),
                to_endpoint: empty_id(),
                memo: String::new(),
            });
            assert(r@ == blank_spec(kind, ev, ov, resource_id(r@)));
            r
        },
        Kind::Environment => {
            let x = Environment {
                id,
                slug: String::new(),
                name: String::new(),
                nodes: Vec::new(),
                infra: Vec::new(),
                systems: Vec::new(),
                connections: Vec::new(),
                memo: String::new(),
            };
            assert(x@.nodes =~= Seq::<DeploymentNodeView>::empty());
            assert(x@.infra =~= Seq::<InfrastructureNodeView>::empty());
            assert(x@.systems =~= Seq::<SoftwareSystemInstanceView>::empty());
            assert(x@.connections =~= Seq::<crate::environment::ConnectionView>::empty());
            let r = Resource::Environment(x);
            assert(r@ == blank_spec(kind, ev, ov, resource_id(r@)));
            r
        },
        Kind::Node => {
            let node = DeploymentNode {
                id,
                slug: String::new(),
                kind: NodeKind::VirtualMachine,
                children: Vec::new(),
                instances: Vec::new(),
                memo: String::new(),
            };
            proof {
                lemma_children_view(node);
                assert(node@.children =~= Seq::<DeploymentNodeView>::empty());
                assert(node@.instances =~= Seq::<ContainerInstanceView>::empty());
            }
            let r = Resource::Node { environment: id_or_empty(environment), within: owner, node };
            assert(r@ == blank_spec(kind, ev, ov, resource_id(r@)));
            r
        },
        Kind::Infra => {
            let x = InfrastructureNode { id, slug: String::new(), endpoints: Vec::new() };
            assert(x@.endpoints =~= Seq::<EndpointView>::empty());
            let r = Resource::Infra { environment: id_or_empty(environment), node: x };
            assert(r@ == blank_spec(kind, ev, ov, resource_id(r@)));
            r
        },
        Kind::InfraEndpoint => {
            let r = Resource::InfraEndpoint {
                environment: id_or_empty(environment),
                node: id_or_empty(owner),
                endpoint: Endpoint { id, slug: String::new(), def: None, protocol: Protocol::Tcp, address: None },
            };
            assert(r@ == blank_spec(kind, ev, ov, resource_id(r@)));
            r
        },
        Kind::Instance => {
            let x = ContainerInstance {
                id,
                slug: String::new(),
                container: empty_id(),
                endpoints: Vec::new(),
                standalone: false,
                memo: String::new(),
            };
            assert(x@.endpoints =~= Seq::<EndpointView>::empty());
            let r = Resource::Instance { environment: id_or_empty(environment), node: id_or_empty(owner), instance: x };
            assert(r@ == blank_spec(kind, ev, ov, resource_id(r@)));
            r
        },
        Kind::SystemInstance => {
            let x = SoftwareSystemInstance {
                id,
                slug: String::new(),
                system: id_or_empty(owner),
                endpoints: Vec::new(),
                standalone: false,
            };
            assert(x@.endpoints =~= Seq::<EndpointView>::empty());
            let r = Resource::SystemInstance { environment: id_or_empty(environment), instance: x };
            assert(r@ == blank_spec(kind, ev, ov, resource_id(r@)));
            r
        },
    }
}

/// A new empty project: a fresh id, the name without surrounding blanks, its slug, no
/// elements at all. Nothing is put in to be deleted first.
pub fn new_project(name: &str) -> (r: Project)
    ensures
        r@.id.len() == 36,
        r@.name == crate::text::trim_spec(name@),
        r@.slug == crate::slug::slug_of(crate::text::trim_spec(name@)),
        r@.memo.len() == 0,
        r@.logical.people.len() == 0,
        r@.logical.systems.len() == 0,
        r@.logical.containers.len() == 0,
        r@.logical.relationships.len() == 0,
        r@.environments.len() == 0,
{
    let trimmed = crate::text::trimmed(name);
    let r = Project {
        id: Id::generate(),
        slug: crate::slug::slugify(trimmed.as_str()),
        name: trimmed,
        memo: String::new(),
        logical: Logical { people: Vec::new(), systems: Vec::new(), containers: Vec::new(), relationships: Vec::new() },
        environments: Vec::new(),
    };
    assert(r@.environments =~= Seq::<EnvironmentView>::empty());
    r
}

// ---- names must be unique ----

/// What is wrong with the element's name among `existing` (pairs of id and name), if
/// anything: a name that is blank after trimming, or one that another element (another
/// id) already has. The name is what wildcards match; two alike would be counted wrong.
pub open spec fn slug_problem(existing: Seq<(Seq<char>, Seq<char>)>, r: ResourceView) -> Option<EditErrorView> {
    let slug = trim_spec(resource_slug(r));
    if slug.len() == 0 {
        Some(EditErrorView::EmptySlug(resource_kind_name(r)))
    } else if exists|j: int| 0 <= j < existing.len() && (#[trigger] existing[j]).1 == slug && existing[j].0 != resource_id(r) {
        Some(EditErrorView::SlugTaken { kind: resource_kind_name(r), slug })
    } else {
        None
    }
}

fn check_slug_unique(existing: &Vec<(Id, String)>, r: &Resource) -> (res: Result<(), EditError>)
    ensures
        match slug_problem(entries_view(existing@), r@) {
            Some(x) => res matches Err(y) && y@ == x,
            None => res is Ok,
        },
{
    let slug = trimmed(r.slug());
    if slug.as_str().is_empty() {
        return Err(EditError::EmptySlug(r.kind_name()));
    }
    let ghost es = entries_view(existing@);
    let mut j: usize = 0;
    while j < existing.len()
        invariant
            j <= existing@.len(),
            es == entries_view(existing@),
            slug@ == trim_spec(resource_slug(r@)),
            slug@.len() != 0,
            forall|k: int| 0 <= k < j ==> !((#[trigger] es[k]).1 == slug@ && es[k].0 != resource_id(r@)),
        decreases existing.len() - j,
    {
        assert(es[j as int] == (existing@[j as int].0@, existing@[j as int].1@));
        if existing[j].1 == slug && !existing[j].0.same(r.id()) {
            assert(es[j as int].1 == slug@ && es[j as int].0 != resource_id(r@));
            return Err(EditError::SlugTaken { kind: r.kind_name(), slug });
        }
        j += 1;
    }
    Ok(())
}

/// Writes `x` into a list after checking its name against the list: at the end when
/// `is_new`, else in place of the first element with its id. Nothing changes on error.
fn write_list<T: Named>(v: &mut Vec<T>, x: &T, r: &Resource, is_new: bool) -> (res: Result<(), EditError>)
    ensures
        match slug_problem(pairs::<T>(views(old(v)@)), r@) {
            Some(e) => res matches Err(y) && y@ == e && final(v)@ == old(v)@,
            None => res is Ok && views(final(v)@) == put::<T>(views(old(v)@), x@, is_new),
        },
{
    let existing = pairs_of(v);
    check_slug_unique(&existing, r)?;
    put_key(v, x, is_new);
    Ok(())
}

// ---- writing into an environment ----

/// Every machine's id and name, depth first.
pub open spec fn tree_node_pairs(n: DeploymentNodeView) -> Seq<(Seq<char>, Seq<char>)>
    decreases n,
{
    seq![(n.id, n.slug)] + forest_node_pairs(n.children)
}

pub open spec fn forest_node_pairs(s: Seq<DeploymentNodeView>) -> Seq<(Seq<char>, Seq<char>)>
    decreases s,
{
    if s.len() == 0 {
        seq![]
    } else {
        forest_node_pairs(s.drop_last()) + tree_node_pairs(s.last())
    }
}

pub open spec fn instance_pairs(s: Seq<ContainerInstanceView>) -> Seq<(Seq<char>, Seq<char>)> {
    s.map_values(|i: ContainerInstanceView| (i.id, i.slug))
}

/// What writing an element of an environment makes of the environment. A machine or a
/// device that exists keeps what hangs on it (only its own fields change); an instance
/// is taken off its old machine and put on the named one, so that moving it never
/// leaves two copies.
pub open spec fn write_env_spec(e: EnvironmentView, r: ResourceView, is_new: bool) -> Result<EnvironmentView, EditErrorView> {
    match r {
        ResourceView::Node { within, node, .. } => match slug_problem(forest_node_pairs(e.nodes), r) {
            Some(x) => Err(x),
            None => match forest_op(set_node_fields_step(node.id, node.slug, node.kind), e.nodes) {
                Some(ns) => Ok(with_nodes(e, ns)),
                None => match within {
                    None => Ok(with_nodes(e, e.nodes.push(node))),
                    Some(parent) => match forest_op(add_child_step(parent, node), e.nodes) {
                        Some(ns) => Ok(with_nodes(e, ns)),
                        None => Err(EditErrorView::NoSuchSubject(parent)),
                    },
                },
            },
        },
        ResourceView::Instance { node, instance, .. } => match slug_problem(instance_pairs(env_instances(e)), r) {
            Some(x) => Err(x),
            None => {
                let taken = match forest_op(take_instance_step(instance.id), e.nodes) {
                    Some(ns) => ns,
                    None => e.nodes,
                };
                match forest_op(add_instance_step(node, instance), taken) {
                    Some(ns) => Ok(with_nodes(e, ns)),
                    None => Err(EditErrorView::NoSuchSubject(node)),
                }
            },
        },
        ResourceView::Infra { node, .. } => match slug_problem(pairs::<InfrastructureNode>(e.infra), r) {
            Some(x) => Err(x),
            None => match first_index(infra_ids(e), node.id) {
                Some(k) => Ok(with_infra(e, e.infra.update(k, InfrastructureNodeView {
                    id: e.infra[k].id,
                    slug: node.slug,
                    endpoints: e.infra[k].endpoints,
                }))),
                None => Ok(with_infra(e, e.infra.push(node))),
            },
        },
        ResourceView::InfraEndpoint { node, endpoint, .. } => match first_index(infra_ids(e), node) {
            Some(k) => match slug_problem(pairs::<Endpoint>(e.infra[k].endpoints), r) {
                Some(x) => Err(x),
                None => Ok(with_infra(e, e.infra.update(k, InfrastructureNodeView {
                    id: e.infra[k].id,
                    slug: e.infra[k].slug,
                    endpoints: put::<Endpoint>(e.infra[k].endpoints, endpoint, is_new),
                }))),
            },
            None => Err(EditErrorView::NoSuchSubject(node)),
        },
        ResourceView::SystemInstance { instance, .. } => match slug_problem(pairs::<SoftwareSystemInstance>(e.systems), r) {
            Some(x) => Err(x),
            None => match first_index(system_instance_ids(e), instance.id) {
                Some(k) => Ok(with_systems(e, e.systems.update(k, SoftwareSystemInstanceView {
                    id: e.systems[k].id,
                    slug: instance.slug,
                    system: instance.system,
                    endpoints: e.systems[k].endpoints,
                    standalone: instance.standalone,
                }))),
                None => Ok(with_systems(e, e.systems.push(instance))),
            },
        },
        _ => Ok(e),
    }
}

fn collect_node_pairs(node: &DeploymentNode, out: &mut Vec<(Id, String)>)
    ensures
        entries_view(final(out)@) == entries_view(old(out)@) + tree_node_pairs(node@),
    decreases node,
{
    let ghost out0 = entries_view(out@);
    out.push((node.id.copy(), node.slug.clone()));
    proof {
        assert(entries_view(out@) =~= out0.push((node@.id, node@.slug)));
        lemma_children_view(*node);
    }
    let ghost mid = entries_view(out@);
    let mut j: usize = 0;
    while j < node.children.len()
        invariant
            j <= node.children.len(),
            node@.children == nodes_view(node.children@),
            entries_view(out@) == mid + forest_node_pairs(node@.children.take(j as int)),
        decreases node.children.len() - j,
    {
        collect_node_pairs(&node.children[j], out);
        proof {
            let c = node@.children.take(j + 1);
            assert(c.drop_last() =~= node@.children.take(j as int));
            assert(c.last() == node.children@[j as int]@);
            assert(entries_view(out@) =~= mid + forest_node_pairs(c));
        }
        j += 1;
    }
    proof {
        assert(node@.children.take(j as int) =~= node@.children);
        assert(entries_view(out@) =~= out0 + tree_node_pairs(node@));
    }
}

fn node_pairs(nodes: &Vec<DeploymentNode>) -> (r: Vec<(Id, String)>)
    ensures
        entries_view(r@) == forest_node_pairs(nodes_view(nodes@)),
{
    let mut out: Vec<(Id, String)> = Vec::new();
    let mut j: usize = 0;
    while j < nodes.len()
        invariant
            j <= nodes.len(),
            entries_view(out@) == forest_node_pairs(nodes_view(nodes@).take(j as int)),
        decreases nodes.len() - j,
    {
        let ghost before = entries_view(out@);
        collect_node_pairs(&nodes[j], &mut out);
        proof {
            let c = nodes_view(nodes@).take(j + 1);
            assert(c.drop_last() =~= nodes_view(nodes@).take(j as int));
            assert(entries_view(out@) =~= forest_node_pairs(c));
        }
        j += 1;
    }
    assert(nodes_view(nodes@).take(j as int) =~= nodes_view(nodes@));
    out
}

fn env_instance_pairs(env: &Environment) -> (r: Vec<(Id, String)>)
    ensures
        entries_view(r@) == instance_pairs(env_instances(env@)),
{
    let all = env.instances();
    let ghost s = env_instances(env@);
    let mut out: Vec<(Id, String)> = Vec::new();
    let mut i: usize = 0;
    while i < all.len()
        invariant
            i <= all@.len(),
            instance_refs_view(all@) == s,
            entries_view(out@) == instance_pairs(s.take(i as int)),
        decreases all.len() - i,
    {
        let ghost before = entries_view(out@);
        out.push((all[i].id.copy(), all[i].slug.clone()));
        proof {
            assert(s[i as int] == all@[i as int]@);
            assert(entries_view(out@) =~= before.push((s[i as int].id, s[i as int].slug)));
            assert(s.take(i + 1) =~= s.take(i as int).push(s[i as int]));
            assert(instance_pairs(s.take(i + 1)) =~= instance_pairs(s.take(i as int)).push((s[i as int].id, s[i as int].slug)));
        }
        i += 1;
    }
    assert(s.take(i as int) =~= s);
    out
}

proof fn lemma_env_keys(env: Environment)
    ensures
        views(env.infra@) == env@.infra,
        keys::<InfrastructureNode>(views(env.infra@)) == infra_ids(env@),
        views(env.systems@) == env@.systems,
        keys::<SoftwareSystemInstance>(views(env.systems@)) == system_instance_ids(env@),
{
    assert(views(env.infra@) =~= env@.infra);
    assert(keys::<InfrastructureNode>(views(env.infra@)) =~= infra_ids(env@));
    assert(views(env.systems@) =~= env@.systems);
    assert(keys::<SoftwareSystemInstance>(views(env.systems@)) =~= system_instance_ids(env@));
}

fn write_node(env: &mut Environment, within: &Option<Id>, node: &DeploymentNode, r: &Resource) -> (res: Result<(), EditError>)
    requires
        r@ matches ResourceView::Node { within: w, node: n, .. } && w == crate::environment::opt_id_view(*within) && n == node@,
    ensures
        env_outcome(res, old(env)@, final(env)@, write_env_spec(old(env)@, r@, false)),
{
    let ghost e0 = env@;
    let existing = node_pairs(&env.nodes);
    check_slug_unique(&existing, r)?;
    let op = SetNodeFields { id: node.id.copy(), slug: node.slug.clone(), kind: node.kind };
    if forest_apply(&op, &mut env.nodes) {
        assert(env@ =~~= with_nodes(e0, env@.nodes));
        return Ok(());
    }
    assert(env@ =~~= e0);
    match within {
        None => {
            env.nodes.push(node.copy());
            assert(env@.nodes =~= e0.nodes.push(node@));
            assert(env@ =~~= with_nodes(e0, e0.nodes.push(node@)));
            Ok(())
        },
        Some(parent) => {
            let op2 = AddChild { parent: parent.copy(), child: node.copy() };
            if forest_apply(&op2, &mut env.nodes) {
                assert(env@ =~~= with_nodes(e0, env@.nodes));
                Ok(())
            } else {
                Err(EditError::NoSuchSubject(parent.copy()))
            }
        },
    }
}

fn write_instance(env: &mut Environment, node: &Id, instance: &ContainerInstance, r: &Resource) -> (res: Result<(), EditError>)
    requires
        r@ matches ResourceView::Instance { node: n, instance: i, .. } && n == node@ && i == instance@,
    ensures
        env_outcome(res, old(env)@, final(env)@, write_env_spec(old(env)@, r@, false)),
{
    let ghost e0 = env@;
    let existing = env_instance_pairs(env);
    check_slug_unique(&existing, r)?;
    let mut nodes = crate::environment::copy_nodes(&env.nodes);
    let take = TakeInstance { id: instance.id.copy() };
    let _ = forest_apply(&take, &mut nodes);
    let add = AddInstance { host: node.copy(), instance: instance.copy() };
    if forest_apply(&add, &mut nodes) {
        env.nodes = nodes;
        assert(env@ =~~= with_nodes(e0, env@.nodes));
        Ok(())
    } else {
        Err(EditError::NoSuchSubject(node.copy()))
    }
}

fn write_infra(env: &mut Environment, node: &InfrastructureNode, r: &Resource) -> (res: Result<(), EditError>)
    requires
        r@ matches ResourceView::Infra { node: n, .. } && n == node@,
    ensures
        env_outcome(res, old(env)@, final(env)@, write_env_spec(old(env)@, r@, false)),
{
    proof {
        lemma_env_keys(*env);
        crate::logical::lemma_first_index(infra_ids(env@), node@.id);
    }
    let ghost e0 = env@;
    let existing = pairs_of(&env.infra);
    check_slug_unique(&existing, r)?;
    match find_key(&env.infra, &node.id) {
        Some(k) => {
            let mut x = env.infra[k].duplicate();
            x.slug = node.slug.clone();
            let ghost xv = x@;
            env.infra.set(k, x);
            assert(env@.infra =~= e0.infra.update(k as int, xv));
            assert(env@ == with_infra(e0, e0.infra.update(k as int, xv)));
            Ok(())
        },
        None => {
            env.infra.push(node.duplicate());
            assert(env@.infra =~= e0.infra.push(node@));
            assert(env@ == with_infra(e0, e0.infra.push(node@)));
            Ok(())
        },
    }
}

fn write_infra_endpoint(env: &mut Environment, node: &Id, endpoint: &Endpoint, r: &Resource, is_new: bool) -> (res: Result<(), EditError>)
    requires
        r@ matches ResourceView::InfraEndpoint { node: n, endpoint: x, .. } && n == node@ && x == endpoint@,
    ensures
        env_outcome(res, old(env)@, final(env)@, write_env_spec(old(env)@, r@, is_new)),
{
    proof {
        lemma_env_keys(*env);
        crate::logical::lemma_first_index(infra_ids(env@), node@);
    }
    let ghost e0 = env@;
    match find_key(&env.infra, node) {
        Some(k) => {
            let mut x = env.infra[k].duplicate();
            proof {
                assert(views(x.endpoints@) =~= e0.infra[k as int].endpoints);
            }
            write_list(&mut x.endpoints, endpoint, r, is_new)?;
            let ghost xv = x@;
            proof {
                assert(xv.endpoints =~= views(x.endpoints@));
            }
            env.infra.set(k, x);
            assert(env@.infra =~= e0.infra.update(k as int, xv));
            assert(env@ == with_infra(e0, e0.infra.update(k as int, xv)));
            Ok(())
        },
        None => Err(EditError::NoSuchSubject(node.copy())),
    }
}

fn write_system_instance(env: &mut Environment, instance: &SoftwareSystemInstance, r: &Resource) -> (res: Result<(), EditError>)
    requires
        r@ matches ResourceView::SystemInstance { instance: i, .. } && i == instance@,
    ensures
        env_outcome(res, old(env)@, final(env)@, write_env_spec(old(env)@, r@, false)),
{
    proof {
        lemma_env_keys(*env);
        crate::logical::lemma_first_index(system_instance_ids(env@), instance@.id);
    }
    let ghost e0 = env@;
    let existing = pairs_of(&env.systems);
    check_slug_unique(&existing, r)?;
    match find_key(&env.systems, &instance.id) {
        Some(k) => {
            let mut x = env.systems[k].duplicate();
            x.slug = instance.slug.clone();
            x.system = instance.system.copy();
            x.standalone = instance.standalone;
            let ghost xv = x@;
            env.systems.set(k, x);
            assert(env@.systems =~= e0.systems.update(k as int, xv));
            assert(env@ == with_systems(e0, e0.systems.update(k as int, xv)));
            Ok(())
        },
        None => {
            env.systems.push(instance.duplicate());
            assert(env@.systems =~= e0.systems.push(instance@));
            assert(env@ == with_systems(e0, e0.systems.push(instance@)));
            Ok(())
        },
    }
}

// ---- writing into a project ----

pub open spec fn with_logical(p: ProjectView, logical: LogicalView) -> ProjectView {
    ProjectView { id: p.id, slug: p.slug, name: p.name, memo: p.memo, logical, environments: p.environments }
}

pub open spec fn with_environments(p: ProjectView, environments: Seq<EnvironmentView>) -> ProjectView {
    ProjectView { id: p.id, slug: p.slug, name: p.name, memo: p.memo, logical: p.logical, environments }
}

pub open spec fn with_people(l: LogicalView, people: Seq<PersonView>) -> LogicalView {
    LogicalView { people, systems: l.systems, containers: l.containers, relationships: l.relationships }
}

pub open spec fn with_systems_l(l: LogicalView, systems: Seq<SoftwareSystemView>) -> LogicalView {
    LogicalView { people: l.people, systems, containers: l.containers, relationships: l.relationships }
}

pub open spec fn with_containers(l: LogicalView, containers: Seq<ContainerView>) -> LogicalView {
    LogicalView { people: l.people, systems: l.systems, containers, relationships: l.relationships }
}

pub open spec fn with_relationships(l: LogicalView, relationships: Seq<RelationshipView>) -> LogicalView {
    LogicalView { people: l.people, systems: l.systems, containers: l.containers, relationships }
}

pub open spec fn container_with_defs(c: ContainerView, endpoints: Seq<EndpointDefView>) -> ContainerView {
    ContainerView { id: c.id, slug: c.slug, name: c.name, system: c.system, endpoints, memo: c.memo }
}

pub open spec fn system_with_defs(x: SoftwareSystemView, endpoints: Seq<EndpointDefView>) -> SoftwareSystemView {
    SoftwareSystemView { id: x.id, slug: x.slug, name: x.name, external: x.external, endpoints, memo: x.memo }
}

pub open spec fn environment_renamed(e: EnvironmentView, slug: Seq<char>, name: Seq<char>) -> EnvironmentView {
    EnvironmentView { id: e.id, slug, name, nodes: e.nodes, infra: e.infra, systems: e.systems, connections: e.connections, memo: e.memo }
}

/// The environment an element lives in, for the elements of an environment.
pub open spec fn resource_environment(r: ResourceView) -> Option<Seq<char>> {
    match r {
        ResourceView::Node { environment, .. } => Some(environment),
        ResourceView::Infra { environment, .. } => Some(environment),
        ResourceView::InfraEndpoint { environment, .. } => Some(environment),
        ResourceView::Instance { environment, .. } => Some(environment),
        ResourceView::SystemInstance { environment, .. } => Some(environment),
        _ => None,
    }
}

/// What adding (`is_new`) or changing an element makes of the project. Lists take the
/// element at their end, or in place of the one with its id; an environment, a machine,
/// a device and an external-system landing that exist keep their contents.
pub open spec fn write_spec(p: ProjectView, r: ResourceView, is_new: bool) -> Result<ProjectView, EditErrorView> {
    let l = p.logical;
    match r {
        ResourceView::Person(x) => match slug_problem(pairs::<Person>(l.people), r) {
            Some(e) => Err(e),
            None => Ok(with_logical(p, with_people(l, put::<Person>(l.people, x, is_new)))),
        },
        ResourceView::System(x) => match slug_problem(pairs::<SoftwareSystem>(l.systems), r) {
            Some(e) => Err(e),
            None => Ok(with_logical(p, with_systems_l(l, put::<SoftwareSystem>(l.systems, x, is_new)))),
        },
        ResourceView::Container(x) => match slug_problem(pairs::<Container>(l.containers), r) {
            Some(e) => Err(e),
            None => Ok(with_logical(p, with_containers(l, put::<Container>(l.containers, x, is_new)))),
        },
        ResourceView::Relationship(x) => match slug_problem(pairs::<Relationship>(l.relationships), r) {
            Some(e) => Err(e),
            None => Ok(with_logical(p, with_relationships(l, put::<Relationship>(l.relationships, x, is_new)))),
        },
        ResourceView::EndpointDef { owner, def } => match first_index(keys::<Container>(l.containers), owner) {
            Some(k) => match slug_problem(pairs::<EndpointDef>(l.containers[k].endpoints), r) {
                Some(e) => Err(e),
                None => Ok(with_logical(p, with_containers(l, l.containers.update(k, container_with_defs(
                    l.containers[k],
                    put::<EndpointDef>(l.containers[k].endpoints, def, is_new),
                ))))),
            },
            None => match first_index(keys::<SoftwareSystem>(l.systems), owner) {
                Some(k) => match slug_problem(pairs::<EndpointDef>(l.systems[k].endpoints), r) {
                    Some(e) => Err(e),
                    None => Ok(with_logical(p, with_systems_l(l, l.systems.update(k, system_with_defs(
                        l.systems[k],
                        put::<EndpointDef>(l.systems[k].endpoints, def, is_new),
                    ))))),
                },
                None => Err(EditErrorView::NoSuchSubject(owner)),
            },
        },
        ResourceView::Environment(e) => match slug_problem(pairs::<Environment>(p.environments), r) {
            Some(x) => Err(x),
            None => match first_index(environment_ids(p), e.id) {
                Some(k) => Ok(with_environments(p, p.environments.update(k, environment_renamed(p.environments[k], e.slug, e.name)))),
                None => Ok(with_environments(p, p.environments.push(e))),
            },
        },
        _ => match resource_environment(r) {
            Some(env) => match first_index(environment_ids(p), env) {
                Some(k) => match write_env_spec(p.environments[k], r, is_new) {
                    Ok(e2) => Ok(with_environments(p, p.environments.update(k, e2))),
                    Err(x) => Err(x),
                },
                None => Err(EditErrorView::NoSuchEnvironment(env)),
            },
            None => Ok(p),
        },
    }
}

proof fn lemma_project_views(p: Project)
    ensures
        views(p.logical.people@) == p@.logical.people,
        views(p.logical.systems@) == p@.logical.systems,
        views(p.logical.containers@) == p@.logical.containers,
        views(p.logical.relationships@) == p@.logical.relationships,
        views(p.environments@) == p@.environments,
        keys::<Environment>(views(p.environments@)) == environment_ids(p@),
{
    assert(views(p.logical.people@) =~= p@.logical.people);
    assert(views(p.logical.systems@) =~= p@.logical.systems);
    assert(views(p.logical.containers@) =~= p@.logical.containers);
    assert(views(p.logical.relationships@) =~= p@.logical.relationships);
    assert(views(p.environments@) =~= p@.environments);
    assert(keys::<Environment>(views(p.environments@)) =~= environment_ids(p@));
}

pub open spec fn project_outcome(r: Result<(), EditError>, p0: ProjectView, p1: ProjectView, spec: Result<ProjectView, EditErrorView>) -> bool {
    match spec {
        Ok(q) => r is Ok && p1 == q,
        Err(x) => r matches Err(y) && y@ == x && p1 == p0,
    }
}

fn write_env_resource(env: &mut Environment, r: &Resource, is_new: bool) -> (res: Result<(), EditError>)
    requires
        resource_environment(r@) is Some,
    ensures
        env_outcome(res, old(env)@, final(env)@, write_env_spec(old(env)@, r@, is_new)),
{
    match r {
        Resource::Node { within, node, .. } => write_node(env, within, node, r),
        Resource::Instance { node, instance, .. } => write_instance(env, node, instance, r),
        Resource::Infra { node, .. } => write_infra(env, node, r),
        Resource::InfraEndpoint { node, endpoint, .. } => write_infra_endpoint(env, node, endpoint, r, is_new),
        Resource::SystemInstance { instance, .. } => write_system_instance(env, instance, r),
        _ => Ok(()),
    }
}

fn write_endpoint_def(l: &mut Logical, owner: &Id, def: &EndpointDef, r: &Resource, is_new: bool) -> (res: Result<(), EditError>)
    requires
        r@ matches ResourceView::EndpointDef { owner: o, def: d } && o == owner@ && d == def@,
    ensures
        match write_spec(ProjectView { id: seq![], slug: seq![], name: seq![], memo: seq![], logical: old(l)@, environments: seq![] }, r@, is_new) {
            Ok(q) => res is Ok && final(l)@ == q.logical,
            Err(x) => res matches Err(y) && y@ == x && final(l)@ == old(l)@,
        },
{
    let ghost l0 = l@;
    assert(views(l.containers@) =~= l0.containers);
    assert(keys::<Container>(views(l.containers@)) =~= keys::<Container>(l0.containers));
    assert(views(l.systems@) =~= l0.systems);
    assert(keys::<SoftwareSystem>(views(l.systems@)) =~= keys::<SoftwareSystem>(l0.systems));
    proof {
        lemma_first_index(keys::<Container>(l0.containers), owner@);
        lemma_first_index(keys::<SoftwareSystem>(l0.systems), owner@);
    }
    match find_key(&l.containers, owner) {
        Some(k) => {
            let mut c = l.containers[k].duplicate();
            assert(views(c.endpoints@) =~= l0.containers[k as int].endpoints);
            write_list(&mut c.endpoints, def, r, is_new)?;
            let ghost cv = c@;
            assert(cv.endpoints =~= views(c.endpoints@));
            l.containers.set(k, c);
            assert(l@.containers =~= l0.containers.update(k as int, cv));
            Ok(())
        },
        None => match find_key(&l.systems, owner) {
            Some(k) => {
                let mut x = l.systems[k].duplicate();
                assert(views(x.endpoints@) =~= l0.systems[k as int].endpoints);
                write_list(&mut x.endpoints, def, r, is_new)?;
                let ghost xv = x@;
                assert(xv.endpoints =~= views(x.endpoints@));
                l.systems.set(k, x);
                assert(l@.systems =~= l0.systems.update(k as int, xv));
                Ok(())
            },
            None => Err(EditError::NoSuchSubject(owner.copy())),
        },
    }
}

fn write_environment(project: &mut Project, e: &Environment, r: &Resource) -> (res: Result<(), EditError>)
    requires
        r@ matches ResourceView::Environment(x) && x == e@,
    ensures
        project_outcome(res, old(project)@, final(project)@, write_spec(old(project)@, r@, false)),
{
    let ghost p0 = project@;
    proof {
        lemma_project_views(*project);
        lemma_first_index(environment_ids(p0), e@.id);
    }
    let existing = pairs_of(&project.environments);
    check_slug_unique(&existing, r)?;
    match find_key(&project.environments, &e.id) {
        Some(k) => {
            let mut x = project.environments[k].duplicate();
            x.slug = e.slug.clone();
            x.name = e.name.clone();
            let ghost xv = x@;
            project.environments.set(k, x);
            assert(project@.environments =~= p0.environments.update(k as int, xv));
            Ok(())
        },
        None => {
            project.environments.push(e.duplicate());
            assert(project@.environments =~= p0.environments.push(e@));
            Ok(())
        },
    }
}

/// Adds (`is_new`) or changes an element; on error the project is left as it was.
fn write_into(project: &mut Project, r: &Resource, is_new: bool) -> (res: Result<(), EditError>)
    ensures
        project_outcome(res, old(project)@, final(project)@, write_spec(old(project)@, r@, is_new)),
{
    let ghost p0 = project@;
    proof {
        lemma_project_views(*project);
    }
    match r {
        Resource::Person(x) => {
            write_list(&mut project.logical.people, x, r, is_new)?;
            assert(project@.logical.people =~= views(project.logical.people@));
            Ok(())
        },
        Resource::System(x) => {
            write_list(&mut project.logical.systems, x, r, is_new)?;
            assert(project@.logical.systems =~= views(project.logical.systems@));
            Ok(())
        },
        Resource::Container(x) => {
            write_list(&mut project.logical.containers, x, r, is_new)?;
            assert(project@.logical.containers =~= views(project.logical.containers@));
            Ok(())
        },
        Resource::Relationship(x) => {
            write_list(&mut project.logical.relationships, x, r, is_new)?;
            assert(project@.logical.relationships =~= views(project.logical.relationships@));
            Ok(())
        },
        Resource::EndpointDef { owner, def } => write_endpoint_def(&mut project.logical, owner, def, r, is_new),
        Resource::Environment(e) => write_environment(project, e, r),
        Resource::Node { environment, .. } | Resource::Infra { environment, .. } | Resource::InfraEndpoint { environment, .. }
        | Resource::Instance { environment, .. } | Resource::SystemInstance { environment, .. } => {
            proof {
                lemma_first_index(environment_ids(p0), environment@);
            }
            match find_key(&project.environments, environment) {
                Some(k) => {
                    let mut env = project.environments[k].duplicate();
                    write_env_resource(&mut env, r, is_new)?;
                    let ghost ev = env@;
                    project.environments.set(k, env);
                    assert(project@.environments =~= p0.environments.update(k as int, ev));
                    Ok(())
                },
                None => Err(EditError::NoSuchEnvironment(environment.copy())),
            }
        },
    }
}

// ---- whether an element is there ----

pub open spec fn env_of(p: ProjectView, id: Seq<char>) -> Option<EnvironmentView> {
    match first_index(environment_ids(p), id) {
        Some(k) => Some(p.environments[k]),
        None => None,
    }
}

pub open spec fn pair_ids(s: Seq<(Seq<char>, Seq<char>)>) -> Seq<Seq<char>> {
    s.map_values(|x: (Seq<char>, Seq<char>)| x.0)
}

/// Whether a device with this id carries an endpoint with that id.
pub open spec fn infra_has_endpoint_of(e: EnvironmentView, node: Seq<char>, id: Seq<char>) -> bool {
    exists|k: int|
        0 <= k < e.infra.len() && (#[trigger] e.infra[k]).id == node && keys::<Endpoint>(e.infra[k].endpoints).contains(id)
}

/// Whether a service or an external system with this id defines an endpoint with that id.
pub open spec fn owner_has_def_spec(l: LogicalView, owner: Seq<char>, id: Seq<char>) -> bool {
    (exists|k: int|
        0 <= k < l.containers.len() && (#[trigger] l.containers[k]).id == owner
            && keys::<EndpointDef>(l.containers[k].endpoints).contains(id)) || (exists|k: int|
        0 <= k < l.systems.len() && (#[trigger] l.systems[k]).id == owner
            && keys::<EndpointDef>(l.systems[k].endpoints).contains(id))
}

/// Whether the element is in the project, where its kind lives: a list of the logical
/// layer, the endpoint definitions of its owner, or the named environment.
pub open spec fn exists_spec(p: ProjectView, r: ResourceView) -> bool {
    let id = resource_id(r);
    let l = p.logical;
    match r {
        ResourceView::Person(_) => keys::<Person>(l.people).contains(id),
        ResourceView::System(_) => keys::<SoftwareSystem>(l.systems).contains(id),
        ResourceView::Container(_) => keys::<Container>(l.containers).contains(id),
        ResourceView::Relationship(_) => keys::<Relationship>(l.relationships).contains(id),
        ResourceView::EndpointDef { owner, .. } => owner_has_def_spec(l, owner, id),
        ResourceView::Environment(_) => environment_ids(p).contains(id),
        ResourceView::Node { environment, .. } => match env_of(p, environment) {
            Some(e) => pair_ids(forest_node_pairs(e.nodes)).contains(id),
            None => false,
        },
        ResourceView::Infra { environment, .. } => match env_of(p, environment) {
            Some(e) => infra_ids(e).contains(id),
            None => false,
        },
        ResourceView::InfraEndpoint { environment, node, .. } => match env_of(p, environment) {
            Some(e) => infra_has_endpoint_of(e, node, id),
            None => false,
        },
        ResourceView::Instance { environment, .. } => match env_of(p, environment) {
            Some(e) => instance_ids(env_instances(e)).contains(id),
            None => false,
        },
        ResourceView::SystemInstance { environment, .. } => match env_of(p, environment) {
            Some(e) => system_instance_ids(e).contains(id),
            None => false,
        },
    }
}

fn has_key<T: Keyed>(v: &Vec<T>, id: &Id) -> (r: bool)
    ensures
        r == keys::<T>(views(v@)).contains(id@),
{
    proof {
        lemma_first_index_contains(keys::<T>(views(v@)), id@);
    }
    find_key(v, id).is_some()
}

fn has_pair_id(v: &Vec<(Id, String)>, id: &Id) -> (r: bool)
    ensures
        r == pair_ids(entries_view(v@)).contains(id@),
{
    let ghost s = pair_ids(entries_view(v@));
    let mut j: usize = 0;
    while j < v.len()
        invariant
            j <= v@.len(),
            s == pair_ids(entries_view(v@)),
            forall|k: int| 0 <= k < j ==> s[k] != id@,
        decreases v.len() - j,
    {
        assert(s[j as int] == v@[j as int].0@);
        if v[j].0.same(id) {
            return true;
        }
        j += 1;
    }
    false
}

fn env_has(env: &Environment, r: &Resource) -> (b: bool)
    requires
        resource_environment(r@) is Some,
    ensures
        b == match r@ {
            ResourceView::Node { .. } => pair_ids(forest_node_pairs(env@.nodes)).contains(resource_id(r@)),
            ResourceView::Infra { .. } => infra_ids(env@).contains(resource_id(r@)),
            ResourceView::InfraEndpoint { node, .. } => infra_has_endpoint_of(env@, node, resource_id(r@)),
            ResourceView::Instance { .. } => instance_ids(env_instances(env@)).contains(resource_id(r@)),
            ResourceView::SystemInstance { .. } => system_instance_ids(env@).contains(resource_id(r@)),
            _ => false,
        },
{
    let id = r.id();
    match r {
        Resource::Node { .. } => {
            let all = node_pairs(&env.nodes);
            has_pair_id(&all, id)
        },
        Resource::Infra { .. } => {
            proof {
                lemma_first_index_contains(infra_ids(env@), id@);
            }
            env.infra_node(id).is_some()
        },
        Resource::InfraEndpoint { node, .. } => {
            let mut k: usize = 0;
            while k < env.infra.len()
                invariant
                    k <= env.infra@.len(),
                    id@ == resource_id(r@),
                    r@ matches ResourceView::InfraEndpoint { node: nd, .. } && nd == node@,
                    forall|j: int| 0 <= j < k ==> !((#[trigger] env@.infra[j]).id == node@
                        && keys::<Endpoint>(env@.infra[j].endpoints).contains(id@)),
                decreases env.infra.len() - k,
            {
                assert(views(env.infra@[k as int].endpoints@) =~= env@.infra[k as int].endpoints);
                if env.infra[k].id.same(node) && has_key(&env.infra[k].endpoints, id) {
                    assert(env@.infra[k as int].id == node@);
                    return true;
                }
                k += 1;
            }
            false
        },
        Resource::Instance { .. } => {
            proof {
                lemma_first_index_contains(instance_ids(env_instances(env@)), id@);
            }
            env.instance(id).is_some()
        },
        Resource::SystemInstance { .. } => {
            proof {
                lemma_first_index_contains(system_instance_ids(env@), id@);
            }
            env.system_instance(id).is_some()
        },
        _ => false,
    }
}

fn owner_has_def(l: &Logical, owner: &Id, id: &Id) -> (b: bool)
    ensures
        b == owner_has_def_spec(l@, owner@, id@),
{
    let mut k: usize = 0;
    while k < l.containers.len()
        invariant
            k <= l.containers@.len(),
            forall|j: int| 0 <= j < k ==> !((#[trigger] l@.containers[j]).id == owner@
                && keys::<EndpointDef>(l@.containers[j].endpoints).contains(id@)),
        decreases l.containers.len() - k,
    {
        assert(views(l.containers@[k as int].endpoints@) =~= l@.containers[k as int].endpoints);
        if l.containers[k].id.same(owner) && has_key(&l.containers[k].endpoints, id) {
            assert(l@.containers[k as int].id == owner@);
            return true;
        }
        k += 1;
    }
    let mut k: usize = 0;
    while k < l.systems.len()
        invariant
            k <= l.systems@.len(),
            forall|j: int| 0 <= j < l@.containers.len() ==> !((#[trigger] l@.containers[j]).id == owner@
                && keys::<EndpointDef>(l@.containers[j].endpoints).contains(id@)),
            forall|j: int| 0 <= j < k ==> !((#[trigger] l@.systems[j]).id == owner@
                && keys::<EndpointDef>(l@.systems[j].endpoints).contains(id@)),
        decreases l.systems.len() - k,
    {
        assert(views(l.systems@[k as int].endpoints@) =~= l@.systems[k as int].endpoints);
        if l.systems[k].id.same(owner) && has_key(&l.systems[k].endpoints, id) {
            assert(l@.systems[k as int].id == owner@);
            return true;
        }
        k += 1;
    }
    false
}

/// Whether the element is in the project.
fn exists_in(project: &Project, r: &Resource) -> (b: bool)
    ensures
        b == exists_spec(project@, r@),
{
    proof {
        lemma_project_views(*project);
    }
    let id = r.id();
    match r {
        Resource::Person(_) => {
            let b = has_key(&project.logical.people, id);
            assert(b == exists_spec(project@, r@));
            b
        },
        Resource::System(_) => {
            let b = has_key(&project.logical.systems, id);
            assert(b == exists_spec(project@, r@));
            b
        },
        Resource::Container(_) => {
            let b = has_key(&project.logical.containers, id);
            assert(b == exists_spec(project@, r@));
            b
        },
        Resource::Relationship(_) => {
            let b = has_key(&project.logical.relationships, id);
            assert(b == exists_spec(project@, r@));
            b
        },
        Resource::EndpointDef { owner, .. } => {
            let b = owner_has_def(&project.logical, owner, id);
            assert(b == exists_spec(project@, r@));
            b
        },
        Resource::Environment(_) => {
            let b = has_key(&project.environments, id);
            assert(b == exists_spec(project@, r@));
            b
        },
        Resource::Node { environment, .. } | Resource::Infra { environment, .. } | Resource::InfraEndpoint { environment, .. }
        | Resource::Instance { environment, .. } | Resource::SystemInstance { environment, .. } => {
            match project.environment(environment) {
                Some(env) => {
                    assert(resource_environment(r@) == Some(environment@));
                    assert(env_of(project@, environment@) == Some(env@));
                    let b = env_has(env, r);
                    assert(b == exists_spec(project@, r@));
                    b
                },
                None => false,
            }
        },
    }
}

// ---- deleting ----

/// The trees with every machine of this id taken out, with what hangs below it.
pub open spec fn prune_tree(n: DeploymentNodeView, id: Seq<char>) -> DeploymentNodeView
    decreases n,
{
    with_children(n, prune_forest(n.children, id))
}

pub open spec fn prune_forest(s: Seq<DeploymentNodeView>, id: Seq<char>) -> Seq<DeploymentNodeView>
    decreases s,
{
    if s.len() == 0 {
        seq![]
    } else if s.last().id == id {
        prune_forest(s.drop_last(), id)
    } else {
        prune_forest(s.drop_last(), id).push(prune_tree(s.last(), id))
    }
}

/// The environment without the element; references to it are left as they are.
pub open spec fn removed_env(e: EnvironmentView, r: ResourceView) -> EnvironmentView {
    let id = resource_id(r);
    match r {
        ResourceView::Node { .. } => with_nodes(e, prune_forest(e.nodes, id)),
        ResourceView::Instance { .. } => match forest_op(take_instance_step(id), e.nodes) {
            Some(ns) => with_nodes(e, ns),
            None => e,
        },
        ResourceView::Infra { .. } => with_infra(e, e.infra.filter(not_key::<InfrastructureNode>(id))),
        ResourceView::InfraEndpoint { node, .. } => match first_index(infra_ids(e), node) {
            Some(k) => with_infra(e, e.infra.update(k, InfrastructureNodeView {
                id: e.infra[k].id,
                slug: e.infra[k].slug,
                endpoints: e.infra[k].endpoints.filter(not_key::<Endpoint>(id)),
            })),
            None => e,
        },
        ResourceView::SystemInstance { .. } => with_systems(e, e.systems.filter(not_key::<SoftwareSystemInstance>(id))),
        _ => e,
    }
}

/// The project without the element. An endpoint definition is taken off the first
/// service and the first external system with the owner's id.
pub open spec fn removed(p: ProjectView, r: ResourceView) -> ProjectView {
    let id = resource_id(r);
    let l = p.logical;
    match r {
        ResourceView::Person(_) => with_logical(p, with_people(l, l.people.filter(not_key::<Person>(id)))),
        ResourceView::System(_) => with_logical(p, with_systems_l(l, l.systems.filter(not_key::<SoftwareSystem>(id)))),
        ResourceView::Container(_) => with_logical(p, with_containers(l, l.containers.filter(not_key::<Container>(id)))),
        ResourceView::Relationship(_) => with_logical(p, with_relationships(l, l.relationships.filter(not_key::<Relationship>(id)))),
        ResourceView::EndpointDef { owner, .. } => {
            let l1 = match first_index(keys::<Container>(l.containers), owner) {
                Some(k) => with_containers(l, l.containers.update(k, container_with_defs(
                    l.containers[k],
                    l.containers[k].endpoints.filter(not_key::<EndpointDef>(id)),
                ))),
                None => l,
            };
            let l2 = match first_index(keys::<SoftwareSystem>(l1.systems), owner) {
                Some(k) => with_systems_l(l1, l1.systems.update(k, system_with_defs(
                    l1.systems[k],
                    l1.systems[k].endpoints.filter(not_key::<EndpointDef>(id)),
                ))),
                None => l1,
            };
            with_logical(p, l2)
        },
        ResourceView::Environment(_) => with_environments(p, p.environments.filter(not_key::<Environment>(id))),
        _ => match resource_environment(r) {
            Some(env) => match first_index(environment_ids(p), env) {
                Some(k) => with_environments(p, p.environments.update(k, removed_env(p.environments[k], r))),
                None => p,
            },
            None => p,
        },
    }
}

/// Deleting fails on an element that is not there; else the element goes, and only it
/// (with what it contains: a machine's machines and instances, a device's endpoints).
pub open spec fn delete_spec(p: ProjectView, r: ResourceView) -> Result<ProjectView, EditErrorView> {
    if exists_spec(p, r) {
        Ok(removed(p, r))
    } else {
        Err(EditErrorView::NoSuchSubject(resource_id(r)))
    }
}

/// Adding fails on an element whose id is already there.
pub open spec fn add_spec(p: ProjectView, r: ResourceView) -> Result<ProjectView, EditErrorView> {
    if exists_spec(p, r) {
        Err(EditErrorView::AlreadyExists(resource_id(r)))
    } else {
        write_spec(p, r, true)
    }
}

/// Changing fails on an element that is not there.
pub open spec fn update_spec(p: ProjectView, r: ResourceView) -> Result<ProjectView, EditErrorView> {
    if exists_spec(p, r) {
        write_spec(p, r, false)
    } else {
        Err(EditErrorView::NoSuchSubject(resource_id(r)))
    }
}

/// Takes every machine with this id out of the trees.
fn prune_nodes(nodes: &mut Vec<DeploymentNode>, id: &Id)
    ensures
        nodes_view(final(nodes)@) == prune_forest(nodes_view(old(nodes)@), id@),
    decreases forest_size(nodes_view(old(nodes)@)),
{
    let ghost s = nodes_view(nodes@);
    let mut out: Vec<DeploymentNode> = Vec::new();
    let mut i: usize = 0;
    while i < nodes.len()
        invariant
            i <= nodes@.len(),
            s == nodes_view(nodes@),
            nodes@ == old(nodes)@,
            nodes_view(out@) == prune_forest(s.take(i as int), id@),
        decreases nodes.len() - i,
    {
        let ghost before = nodes_view(out@);
        proof {
            let c = s.take(i + 1);
            assert(c.drop_last() =~= s.take(i as int));
            assert(c.last() == s[i as int]);
            assert(s[i as int] == nodes@[i as int]@);
        }
        if !nodes[i].id.same(id) {
            let mut m = nodes[i].copy();
            proof {
                lemma_children_view(m);
                lemma_size_of_member(s, i as int);
            }
            prune_nodes(&mut m.children, id);
            proof {
                lemma_children_view(m);
                assert(m@ =~~= prune_tree(s[i as int], id@));
            }
            let ghost mv = m@;
            out.push(m);
            assert(nodes_view(out@) =~= before.push(mv));
        }
        i += 1;
    }
    assert(s.take(i as int) =~= s);
    *nodes = out;
}

fn remove_in_env(env: &mut Environment, r: &Resource)
    requires
        resource_environment(r@) is Some,
    ensures
        final(env)@ == removed_env(old(env)@, r@),
{
    let ghost e0 = env@;
    proof {
        lemma_env_keys(*env);
    }
    let id = r.id();
    match r {
        Resource::Node { .. } => {
            prune_nodes(&mut env.nodes, id);
            assert(env@ =~~= with_nodes(e0, env@.nodes));
        },
        Resource::Instance { .. } => {
            let take = TakeInstance { id: id.copy() };
            if forest_apply(&take, &mut env.nodes) {
                assert(env@ =~~= with_nodes(e0, env@.nodes));
            } else {
                assert(env@ =~~= e0);
            }
        },
        Resource::Infra { .. } => {
            retain_key(&mut env.infra, id);
            assert(env@.infra =~= views(env.infra@));
        },
        Resource::InfraEndpoint { node, .. } => {
            proof {
                lemma_first_index(infra_ids(e0), node@);
            }
            match find_key(&env.infra, node) {
                Some(k) => {
                    let mut x = env.infra[k].duplicate();
                    assert(views(x.endpoints@) =~= e0.infra[k as int].endpoints);
                    retain_key(&mut x.endpoints, id);
                    let ghost xv = x@;
                    assert(xv.endpoints =~= views(x.endpoints@));
                    env.infra.set(k, x);
                    assert(env@.infra =~= e0.infra.update(k as int, xv));
                },
                None => {},
            }
        },
        Resource::SystemInstance { .. } => {
            retain_key(&mut env.systems, id);
            assert(env@.systems =~= views(env.systems@));
        },
        _ => {},
    }
}

fn remove_def(l: &mut Logical, owner: &Id, id: &Id)
    ensures
        final(l)@ == removed(
            ProjectView { id: seq![], slug: seq![], name: seq![], memo: seq![], logical: old(l)@, environments: seq![] },
            ResourceView::EndpointDef { owner: owner@, def: EndpointDefView { id: id@, slug: seq![], protocol: Protocol::Tcp, memo: seq![] } },
        ).logical,
{
    let ghost l0 = l@;
    assert(views(l.containers@) =~= l0.containers);
    assert(keys::<Container>(views(l.containers@)) =~= keys::<Container>(l0.containers));
    proof {
        lemma_first_index(keys::<Container>(l0.containers), owner@);
    }
    match find_key(&l.containers, owner) {
        Some(k) => {
            let mut c = l.containers[k].duplicate();
            assert(views(c.endpoints@) =~= l0.containers[k as int].endpoints);
            retain_key(&mut c.endpoints, id);
            let ghost cv = c@;
            assert(cv.endpoints =~= views(c.endpoints@));
            l.containers.set(k, c);
            assert(l@.containers =~= l0.containers.update(k as int, cv));
        },
        None => {},
    }
    let ghost l1 = l@;
    assert(views(l.systems@) =~= l1.systems);
    assert(keys::<SoftwareSystem>(views(l.systems@)) =~= keys::<SoftwareSystem>(l1.systems));
    proof {
        lemma_first_index(keys::<SoftwareSystem>(l1.systems), owner@);
    }
    match find_key(&l.systems, owner) {
        Some(k) => {
            let mut x = l.systems[k].duplicate();
            assert(views(x.endpoints@) =~= l1.systems[k as int].endpoints);
            retain_key(&mut x.endpoints, id);
            let ghost xv = x@;
            assert(xv.endpoints =~= views(x.endpoints@));
            l.systems.set(k, x);
            assert(l@.systems =~= l1.systems.update(k as int, xv));
        },
        None => {},
    }
}

/// Deletes an element. What pointed at it is left dangling, for L012 to name.
pub(crate) fn delete(project: &mut Project, r: &Resource) -> (res: Result<(), EditError>)
    ensures
        project_outcome(res, old(project)@, final(project)@, delete_spec(old(project)@, r@)),
{
    if !exists_in(project, r) {
        return Err(EditError::NoSuchSubject(r.id().copy()));
    }
    let ghost p0 = project@;
    proof {
        lemma_project_views(*project);
    }
    let id = r.id();
    match r {
        Resource::Person(_) => {
            retain_key(&mut project.logical.people, id);
            assert(project@.logical.people =~= views(project.logical.people@));
        },
        Resource::System(_) => {
            retain_key(&mut project.logical.systems, id);
            assert(project@.logical.systems =~= views(project.logical.systems@));
        },
        Resource::Container(_) => {
            retain_key(&mut project.logical.containers, id);
            assert(project@.logical.containers =~= views(project.logical.containers@));
        },
        Resource::Relationship(_) => {
            retain_key(&mut project.logical.relationships, id);
            assert(project@.logical.relationships =~= views(project.logical.relationships@));
        },
        Resource::EndpointDef { owner, .. } => {
            remove_def(&mut project.logical, owner, id);
        },
        Resource::Environment(_) => {
            retain_key(&mut project.environments, id);
            assert(project@.environments =~= views(project.environments@));
        },
        Resource::Node { environment, .. } | Resource::Infra { environment, .. } | Resource::InfraEndpoint { environment, .. }
        | Resource::Instance { environment, .. } | Resource::SystemInstance { environment, .. } => {
            proof {
                lemma_first_index(environment_ids(p0), environment@);
            }
            match find_key(&project.environments, environment) {
                Some(k) => {
                    let mut env = project.environments[k].duplicate();
                    remove_in_env(&mut env, r);
                    let ghost ev = env@;
                    project.environments.set(k, env);
                    assert(project@.environments =~= p0.environments.update(k as int, ev));
                },
                None => {},
            }
        },
    }
    Ok(())
}

/// Adds an element; fails when one with its id is already there.
pub(crate) fn add(project: &mut Project, r: &Resource) -> (res: Result<(), EditError>)
    ensures
        project_outcome(res, old(project)@, final(project)@, add_spec(old(project)@, r@)),
{
    if exists_in(project, r) {
        return Err(EditError::AlreadyExists(r.id().copy()));
    }
    write_into(project, r, true)
}

/// Changes an element; fails when it is not there.
pub(crate) fn update(project: &mut Project, r: &Resource) -> (res: Result<(), EditError>)
    ensures
        project_outcome(res, old(project)@, final(project)@, update_spec(old(project)@, r@)),
{
    if !exists_in(project, r) {
        return Err(EditError::NoSuchSubject(r.id().copy()));
    }
    write_into(project, r, false)
}

// ---- finding an element by id ----

pub open spec fn resources_view(s: Seq<Resource>) -> Seq<ResourceView> {
    s.map_values(|r: Resource| r@)
}

pub open spec fn owned_defs(owner: Seq<char>, defs: Seq<EndpointDefView>) -> Seq<ResourceView> {
    defs.map_values(|d: EndpointDefView| ResourceView::EndpointDef { owner, def: d })
}

pub open spec fn container_defs(cs: Seq<ContainerView>) -> Seq<ResourceView>
    decreases cs.len(),
{
    if cs.len() == 0 {
        seq![]
    } else {
        container_defs(cs.drop_last()) + owned_defs(cs.last().id, cs.last().endpoints)
    }
}

pub open spec fn system_defs(ss: Seq<SoftwareSystemView>) -> Seq<ResourceView>
    decreases ss.len(),
{
    if ss.len() == 0 {
        seq![]
    } else {
        system_defs(ss.drop_last()) + owned_defs(ss.last().id, ss.last().endpoints)
    }
}

/// The elements of the logical layer: people, systems, services, endpoint definitions
/// (the services', then the systems'), relationships.
pub open spec fn logical_resources(l: LogicalView) -> Seq<ResourceView> {
    l.people.map_values(|x: PersonView| ResourceView::Person(x))
        + l.systems.map_values(|x: SoftwareSystemView| ResourceView::System(x))
        + l.containers.map_values(|x: ContainerView| ResourceView::Container(x))
        + container_defs(l.containers)
        + system_defs(l.systems)
        + l.relationships.map_values(|x: RelationshipView| ResourceView::Relationship(x))
}

/// Every machine of a tree with its parent, depth first.
pub open spec fn tree_node_resources(env: Seq<char>, parent: Option<Seq<char>>, n: DeploymentNodeView) -> Seq<ResourceView>
    decreases n,
{
    seq![ResourceView::Node { environment: env, within: parent, node: n }] + forest_node_resources(env, Some(n.id), n.children)
}

pub open spec fn forest_node_resources(env: Seq<char>, parent: Option<Seq<char>>, s: Seq<DeploymentNodeView>) -> Seq<ResourceView>
    decreases s,
{
    if s.len() == 0 {
        seq![]
    } else {
        forest_node_resources(env, parent, s.drop_last()) + tree_node_resources(env, parent, s.last())
    }
}

/// Every instance of a tree with the machine it runs on, depth first.
pub open spec fn tree_instance_resources(env: Seq<char>, n: DeploymentNodeView) -> Seq<ResourceView>
    decreases n,
{
    n.instances.map_values(|i: ContainerInstanceView| ResourceView::Instance { environment: env, node: n.id, instance: i })
        + forest_instance_resources(env, n.children)
}

pub open spec fn forest_instance_resources(env: Seq<char>, s: Seq<DeploymentNodeView>) -> Seq<ResourceView>
    decreases s,
{
    if s.len() == 0 {
        seq![]
    } else {
        forest_instance_resources(env, s.drop_last()) + tree_instance_resources(env, s.last())
    }
}

pub open spec fn infra_endpoint_resources(env: Seq<char>, infra: Seq<InfrastructureNodeView>) -> Seq<ResourceView>
    decreases infra.len(),
{
    if infra.len() == 0 {
        seq![]
    } else {
        infra_endpoint_resources(env, infra.drop_last()) + infra.last().endpoints.map_values(
            |ep: EndpointView| ResourceView::InfraEndpoint { environment: env, node: infra.last().id, endpoint: ep },
        )
    }
}

/// The elements of one environment: itself, its machines, devices, device endpoints,
/// instances and external-system landings.
pub open spec fn env_resources(e: EnvironmentView) -> Seq<ResourceView> {
    seq![ResourceView::Environment(e)] + forest_node_resources(e.id, None, e.nodes)
        + e.infra.map_values(|n: InfrastructureNodeView| ResourceView::Infra { environment: e.id, node: n })
        + infra_endpoint_resources(e.id, e.infra) + forest_instance_resources(e.id, e.nodes)
        + e.systems.map_values(|x: SoftwareSystemInstanceView| ResourceView::SystemInstance { environment: e.id, instance: x })
}

pub open spec fn envs_resources(es: Seq<EnvironmentView>) -> Seq<ResourceView>
    decreases es.len(),
{
    if es.len() == 0 {
        seq![]
    } else {
        envs_resources(es.drop_last()) + env_resources(es.last())
    }
}

/// Every element of the project that can be added, changed or deleted, in this order:
/// the logical layer, then each environment.
pub open spec fn all_resources(p: ProjectView) -> Seq<ResourceView> {
    logical_resources(p.logical) + envs_resources(p.environments)
}

pub open spec fn has_id(id: Seq<char>) -> spec_fn(ResourceView) -> bool {
    |r: ResourceView| resource_id(r) == id
}

/// The first element with this id, in the order of [`all_resources`].
pub open spec fn find_spec(p: ProjectView, id: Seq<char>) -> Option<ResourceView> {
    match first_match(all_resources(p), has_id(id)) {
        Some(k) => Some(all_resources(p)[k]),
        None => None,
    }
}

fn push_resource(out: &mut Vec<Resource>, r: Resource)
    ensures
        resources_view(final(out)@) == resources_view(old(out)@).push(r@),
{
    let ghost before = out@;
    let ghost rv = r@;
    out.push(r);
    assert(resources_view(out@) =~= resources_view(before).push(rv));
}

fn push_defs(out: &mut Vec<Resource>, owner: &Id, defs: &Vec<EndpointDef>)
    ensures
        resources_view(final(out)@) == resources_view(old(out)@) + owned_defs(owner@, crate::logical::defs_view(defs@)),
{
    let ghost o0 = resources_view(out@);
    let ghost ds = owned_defs(owner@, crate::logical::defs_view(defs@));
    let mut i: usize = 0;
    while i < defs.len()
        invariant
            i <= defs@.len(),
            ds == owned_defs(owner@, crate::logical::defs_view(defs@)),
            resources_view(out@) == o0 + ds.take(i as int),
        decreases defs.len() - i,
    {
        push_resource(out, Resource::EndpointDef { owner: owner.copy(), def: defs[i].duplicate() });
        proof {
            assert(ds.take(i + 1) =~= ds.take(i as int).push(ds[i as int]));
            assert(resources_view(out@) =~= o0 + ds.take(i + 1));
        }
        i += 1;
    }
    assert(ds.take(i as int) =~= ds);
}

fn collect_logical(l: &Logical, out: &mut Vec<Resource>)
    ensures
        resources_view(final(out)@) == resources_view(old(out)@) + logical_resources(l@),
{
    let ghost o0 = resources_view(out@);
    let ghost a = l@.people.map_values(|x: PersonView| ResourceView::Person(x));
    let mut i: usize = 0;
    while i < l.people.len()
        invariant
            i <= l.people@.len(),
            a == l@.people.map_values(|x: PersonView| ResourceView::Person(x)),
            resources_view(out@) == o0 + a.take(i as int),
        decreases l.people.len() - i,
    {
        push_resource(out, Resource::Person(l.people[i].duplicate()));
        proof {
            assert(a.take(i + 1) =~= a.take(i as int).push(a[i as int]));
            assert(resources_view(out@) =~= o0 + a.take(i + 1));
        }
        i += 1;
    }
    assert(a.take(i as int) =~= a);
    let ghost o1 = resources_view(out@);
    let ghost b = l@.systems.map_values(|x: SoftwareSystemView| ResourceView::System(x));
    let mut i: usize = 0;
    while i < l.systems.len()
        invariant
            i <= l.systems@.len(),
            b == l@.systems.map_values(|x: SoftwareSystemView| ResourceView::System(x)),
            resources_view(out@) == o1 + b.take(i as int),
        decreases l.systems.len() - i,
    {
        push_resource(out, Resource::System(l.systems[i].duplicate()));
        proof {
            assert(b.take(i + 1) =~= b.take(i as int).push(b[i as int]));
            assert(resources_view(out@) =~= o1 + b.take(i + 1));
        }
        i += 1;
    }
    assert(b.take(i as int) =~= b);
    let ghost o2 = resources_view(out@);
    let ghost c = l@.containers.map_values(|x: ContainerView| ResourceView::Container(x));
    let mut i: usize = 0;
    while i < l.containers.len()
        invariant
            i <= l.containers@.len(),
            c == l@.containers.map_values(|x: ContainerView| ResourceView::Container(x)),
            resources_view(out@) == o2 + c.take(i as int),
        decreases l.containers.len() - i,
    {
        push_resource(out, Resource::Container(l.containers[i].duplicate()));
        proof {
            assert(c.take(i + 1) =~= c.take(i as int).push(c[i as int]));
            assert(resources_view(out@) =~= o2 + c.take(i + 1));
        }
        i += 1;
    }
    assert(c.take(i as int) =~= c);
    let ghost o3 = resources_view(out@);
    let mut i: usize = 0;
    while i < l.containers.len()
        invariant
            i <= l.containers@.len(),
            resources_view(out@) == o3 + container_defs(l@.containers.take(i as int)),
        decreases l.containers.len() - i,
    {
        push_defs(out, &l.containers[i].id, &l.containers[i].endpoints);
        proof {
            let t = l@.containers.take(i + 1);
            assert(t.drop_last() =~= l@.containers.take(i as int));
            assert(t.last() == l.containers@[i as int]@);
        }
        i += 1;
    }
    assert(l@.containers.take(i as int) =~= l@.containers);
    let ghost o4 = resources_view(out@);
    let mut i: usize = 0;
    while i < l.systems.len()
        invariant
            i <= l.systems@.len(),
            resources_view(out@) == o4 + system_defs(l@.systems.take(i as int)),
        decreases l.systems.len() - i,
    {
        push_defs(out, &l.systems[i].id, &l.systems[i].endpoints);
        proof {
            let t = l@.systems.take(i + 1);
            assert(t.drop_last() =~= l@.systems.take(i as int));
            assert(t.last() == l.systems@[i as int]@);
        }
        i += 1;
    }
    assert(l@.systems.take(i as int) =~= l@.systems);
    let ghost o5 = resources_view(out@);
    let ghost d = l@.relationships.map_values(|x: RelationshipView| ResourceView::Relationship(x));
    let mut i: usize = 0;
    while i < l.relationships.len()
        invariant
            i <= l.relationships@.len(),
            d == l@.relationships.map_values(|x: RelationshipView| ResourceView::Relationship(x)),
            resources_view(out@) == o5 + d.take(i as int),
        decreases l.relationships.len() - i,
    {
        push_resource(out, Resource::Relationship(l.relationships[i].duplicate()));
        proof {
            assert(d.take(i + 1) =~= d.take(i as int).push(d[i as int]));
            assert(resources_view(out@) =~= o5 + d.take(i + 1));
        }
        i += 1;
    }
    assert(d.take(i as int) =~= d);
    assert(resources_view(out@) =~= o0 + logical_resources(l@));
}

fn collect_tree_nodes(env: &Id, parent: &Option<Id>, n: &DeploymentNode, out: &mut Vec<Resource>)
    ensures
        resources_view(final(out)@) == resources_view(old(out)@) + tree_node_resources(env@, crate::environment::opt_id_view(*parent), n@),
    decreases n,
{
    let ghost o0 = resources_view(out@);
    push_resource(out, Resource::Node { environment: env.copy(), within: crate::environment::copy_opt_id(parent), node: n.copy() });
    let here = Some(n.id.copy());
    proof {
        lemma_children_view(*n);
    }
    let ghost mid = resources_view(out@);
    let mut j: usize = 0;
    while j < n.children.len()
        invariant
            j <= n.children.len(),
            n@.children == nodes_view(n.children@),
            crate::environment::opt_id_view(here) == Some(n@.id),
            resources_view(out@) == mid + forest_node_resources(env@, Some(n@.id), n@.children.take(j as int)),
        decreases n.children.len() - j,
    {
        collect_tree_nodes(env, &here, &n.children[j], out);
        proof {
            let c = n@.children.take(j + 1);
            assert(c.drop_last() =~= n@.children.take(j as int));
            assert(c.last() == n.children@[j as int]@);
        }
        j += 1;
    }
    assert(n@.children.take(j as int) =~= n@.children);
}

fn collect_tree_instances(env: &Id, n: &DeploymentNode, out: &mut Vec<Resource>)
    ensures
        resources_view(final(out)@) == resources_view(old(out)@) + tree_instance_resources(env@, n@),
    decreases n,
{
    let ghost o0 = resources_view(out@);
    let ghost a = n@.instances.map_values(|i: ContainerInstanceView| ResourceView::Instance { environment: env@, node: n@.id, instance: i });
    let mut i: usize = 0;
    while i < n.instances.len()
        invariant
            i <= n.instances@.len(),
            a == n@.instances.map_values(|i: ContainerInstanceView| ResourceView::Instance { environment: env@, node: n@.id, instance: i }),
            resources_view(out@) == o0 + a.take(i as int),
        decreases n.instances.len() - i,
    {
        push_resource(out, Resource::Instance { environment: env.copy(), node: n.id.copy(), instance: n.instances[i].copy() });
        proof {
            assert(a.take(i + 1) =~= a.take(i as int).push(a[i as int]));
            assert(resources_view(out@) =~= o0 + a.take(i + 1));
        }
        i += 1;
    }
    assert(a.take(i as int) =~= a);
    proof {
        lemma_children_view(*n);
    }
    let ghost mid = resources_view(out@);
    let mut j: usize = 0;
    while j < n.children.len()
        invariant
            j <= n.children.len(),
            n@.children == nodes_view(n.children@),
            resources_view(out@) == mid + forest_instance_resources(env@, n@.children.take(j as int)),
        decreases n.children.len() - j,
    {
        collect_tree_instances(env, &n.children[j], out);
        proof {
            let c = n@.children.take(j + 1);
            assert(c.drop_last() =~= n@.children.take(j as int));
            assert(c.last() == n.children@[j as int]@);
        }
        j += 1;
    }
    assert(n@.children.take(j as int) =~= n@.children);
}

fn collect_environment(e: &Environment, out: &mut Vec<Resource>)
    ensures
        resources_view(final(out)@) == resources_view(old(out)@) + env_resources(e@),
{
    let ghost o0 = resources_view(out@);
    push_resource(out, Resource::Environment(e.duplicate()));
    let ghost o1 = resources_view(out@);
    let mut j: usize = 0;
    while j < e.nodes.len()
        invariant
            j <= e.nodes@.len(),
            resources_view(out@) == o1 + forest_node_resources(e@.id, None, e@.nodes.take(j as int)),
        decreases e.nodes.len() - j,
    {
        collect_tree_nodes(&e.id, &None, &e.nodes[j], out);
        proof {
            let c = e@.nodes.take(j + 1);
            assert(c.drop_last() =~= e@.nodes.take(j as int));
            assert(c.last() == e.nodes@[j as int]@);
        }
        j += 1;
    }
    assert(e@.nodes.take(j as int) =~= e@.nodes);
    let ghost o2 = resources_view(out@);
    let ghost a = e@.infra.map_values(|n: InfrastructureNodeView| ResourceView::Infra { environment: e@.id, node: n });
    let mut i: usize = 0;
    while i < e.infra.len()
        invariant
            i <= e.infra@.len(),
            a == e@.infra.map_values(|n: InfrastructureNodeView| ResourceView::Infra { environment: e@.id, node: n }),
            resources_view(out@) == o2 + a.take(i as int),
        decreases e.infra.len() - i,
    {
        push_resource(out, Resource::Infra { environment: e.id.copy(), node: e.infra[i].duplicate() });
        proof {
            assert(a.take(i + 1) =~= a.take(i as int).push(a[i as int]));
            assert(resources_view(out@) =~= o2 + a.take(i + 1));
        }
        i += 1;
    }
    assert(a.take(i as int) =~= a);
    let ghost o3 = resources_view(out@);
    let mut i: usize = 0;
    while i < e.infra.len()
        invariant
            i <= e.infra@.len(),
            resources_view(out@) == o3 + infra_endpoint_resources(e@.id, e@.infra.take(i as int)),
        decreases e.infra.len() - i,
    {
        let ghost before = resources_view(out@);
        let node = &e.infra[i];
        let ghost b = node@.endpoints.map_values(|ep: EndpointView| ResourceView::InfraEndpoint { environment: e@.id, node: node@.id, endpoint: ep });
        let mut k: usize = 0;
        while k < node.endpoints.len()
            invariant
                k <= node.endpoints@.len(),
                b == node@.endpoints.map_values(|ep: EndpointView| ResourceView::InfraEndpoint { environment: e@.id, node: node@.id, endpoint: ep }),
                resources_view(out@) == before + b.take(k as int),
            decreases node.endpoints.len() - k,
        {
            push_resource(out, Resource::InfraEndpoint { environment: e.id.copy(), node: node.id.copy(), endpoint: node.endpoints[k].copy() });
            proof {
                assert(b.take(k + 1) =~= b.take(k as int).push(b[k as int]));
                assert(resources_view(out@) =~= before + b.take(k + 1));
            }
            k += 1;
        }
        proof {
            assert(b.take(k as int) =~= b);
            let c = e@.infra.take(i + 1);
            assert(c.drop_last() =~= e@.infra.take(i as int));
            assert(c.last() == e.infra@[i as int]@);
        }
        i += 1;
    }
    assert(e@.infra.take(i as int) =~= e@.infra);
    let ghost o4 = resources_view(out@);
    let mut j: usize = 0;
    while j < e.nodes.len()
        invariant
            j <= e.nodes@.len(),
            resources_view(out@) == o4 + forest_instance_resources(e@.id, e@.nodes.take(j as int)),
        decreases e.nodes.len() - j,
    {
        collect_tree_instances(&e.id, &e.nodes[j], out);
        proof {
            let c = e@.nodes.take(j + 1);
            assert(c.drop_last() =~= e@.nodes.take(j as int));
            assert(c.last() == e.nodes@[j as int]@);
        }
        j += 1;
    }
    assert(e@.nodes.take(j as int) =~= e@.nodes);
    let ghost o5 = resources_view(out@);
    let ghost d = e@.systems.map_values(|x: SoftwareSystemInstanceView| ResourceView::SystemInstance { environment: e@.id, instance: x });
    let mut i: usize = 0;
    while i < e.systems.len()
        invariant
            i <= e.systems@.len(),
            d == e@.systems.map_values(|x: SoftwareSystemInstanceView| ResourceView::SystemInstance { environment: e@.id, instance: x }),
            resources_view(out@) == o5 + d.take(i as int),
        decreases e.systems.len() - i,
    {
        push_resource(out, Resource::SystemInstance { environment: e.id.copy(), instance: e.systems[i].duplicate() });
        proof {
            assert(d.take(i + 1) =~= d.take(i as int).push(d[i as int]));
            assert(resources_view(out@) =~= o5 + d.take(i + 1));
        }
        i += 1;
    }
    assert(d.take(i as int) =~= d);
    assert(resources_view(out@) =~= o0 + env_resources(e@));
}

/// Every element of the project, in the order of [`all_resources`].
pub(crate) fn all_of(project: &Project) -> (r: Vec<Resource>)
    ensures
        resources_view(r@) == all_resources(project@),
{
    let mut out: Vec<Resource> = Vec::new();
    collect_logical(&project.logical, &mut out);
    let ghost o1 = resources_view(out@);
    assert(o1 =~= logical_resources(project@.logical));
    let mut j: usize = 0;
    while j < project.environments.len()
        invariant
            j <= project.environments@.len(),
            resources_view(out@) == o1 + envs_resources(project@.environments.take(j as int)),
        decreases project.environments.len() - j,
    {
        collect_environment(&project.environments[j], &mut out);
        proof {
            let c = project@.environments.take(j + 1);
            assert(c.drop_last() =~= project@.environments.take(j as int));
            assert(c.last() == project.environments@[j as int]@);
        }
        j += 1;
    }
    assert(project@.environments.take(j as int) =~= project@.environments);
    out
}

/// The element with this id, whatever its kind: what a delete needs to name it.
pub fn find(project: &Project, id: &Id) -> (r: Option<Resource>)
    ensures
        match find_spec(project@, id@) {
            Some(x) => r matches Some(y) && y@ == x,
            None => r is None,
        },
{
    let all = all_of(project);
    let ghost s = all_resources(project@);
    proof {
        lemma_first_match(s, has_id(id@));
    }
    let mut i: usize = 0;
    while i < all.len()
        invariant
            i <= all@.len(),
            resources_view(all@) == s,
            s == all_resources(project@),
            forall|j: int| 0 <= j < i ==> !(has_id(id@))(#[trigger] s[j]),
        decreases all.len() - i,
    {
        assert(s[i as int] == all@[i as int]@);
        if all[i].id().same(id) {
            proof {
                lemma_first_match_unique(s, has_id(id@), i as int);
            }
            return Some(all[i].duplicate());
        }
        i += 1;
    }
    None
}

} // verus!