//! Deep copies whose views equal the original's, and deep comparisons by view.
//!
//! Edits are tried on a copy first (a preview must not touch the project) and the undo
//! history keeps whole copies, so copying must be known to keep every field.

use vstd::prelude::*;
use crate::{Project};
use crate::environment::{Connection, ContainerInstance, DeploymentNode, Endpoint, Endpointing, Environment,
    InfrastructureNode, InstanceRef, SoftwareSystemInstance, copy_opt_id, copy_opt_text, copy_endpoints,
    copy_instances, copy_nodes, endpoints_view, instances_view, lemma_children_view, nodes_view, opt_id_view, opt_text_view};
use crate::id::Id;
use crate::resource::Resource;
use crate::logical::{Container, EndpointDef, Logical, Person, Relationship, RelationshipEnd, SoftwareSystem, defs_view};

verus! {

/// A value that can be copied with its view kept.
pub trait Duplicate: Sized + View {
    fn duplicate(&self) -> (r: Self)
        ensures
            r@ == self@;
}

pub open spec fn views<T: View>(s: Seq<T>) -> Seq<T::V> {
    s.map_values(|x: T| x@)
}

/// A copy of every element, in order.
pub fn duplicate_all<T: Duplicate>(v: &Vec<T>) -> (r: Vec<T>)
    ensures
        views(r@) == views(v@),
{
    let mut out: Vec<T> = Vec::new();
    let mut i: usize = 0;
    while i < v.len()
        invariant
            i <= v@.len(),
            views(out@) == views(v@).take(i as int),
        decreases v.len() - i,
    {
        let ghost before = out@;
        let x = v[i].duplicate();
        let ghost xv = x@;
        out.push(x);
        proof {
            assert(views(out@) =~= views(before).push(xv));
            assert(views(v@).take(i + 1) =~= views(v@).take(i as int).push(v@[i as int]@));
        }
        i += 1;
    }
    assert(views(v@).take(i as int) =~= views(v@));
    out
}

impl Duplicate for Person {
    fn duplicate(&self) -> (r: Person) {
        Person { id: self.id.copy(), slug: self.slug.clone(), name: self.name.clone(), memo: self.memo.clone() }
    }
}

impl Duplicate for EndpointDef {
    fn duplicate(&self) -> (r: EndpointDef) {
        EndpointDef { id: self.id.copy(), slug: self.slug.clone(), protocol: self.protocol, memo: self.memo.clone() }
    }
}

fn duplicate_defs(v: &Vec<EndpointDef>) -> (r: Vec<EndpointDef>)
    ensures
        defs_view(r@) == defs_view(v@),
{
    let r = duplicate_all(v);
    assert(defs_view(r@) =~= views(r@));
    assert(defs_view(v@) =~= views(v@));
    r
}

impl Duplicate for SoftwareSystem {
    fn duplicate(&self) -> (r: SoftwareSystem) {
        SoftwareSystem {
            id: self.id.copy(),
            slug: self.slug.clone(),
            name: self.name.clone(),
            external: self.external,
            endpoints: duplicate_defs(&self.endpoints),
            memo: self.memo.clone(),
        }
    }
}

impl Duplicate for Container {
    fn duplicate(&self) -> (r: Container) {
        Container {
            id: self.id.copy(),
            slug: self.slug.clone(),
            name: self.name.clone(),
            system: self.system.copy(),
            endpoints: duplicate_defs(&self.endpoints),
            memo: self.memo.clone(),
        }
    }
}

impl Duplicate for RelationshipEnd {
    fn duplicate(&self) -> (r: RelationshipEnd) {
        match self {
            RelationshipEnd::Container(id) => RelationshipEnd::Container(id.copy()),
            RelationshipEnd::System(id) => RelationshipEnd::System(id.copy()),
            RelationshipEnd::Person(id) => RelationshipEnd::Person(id.copy()),
        }
    }
}

impl Duplicate for Relationship {
    fn duplicate(&self) -> (r: Relationship) {
        Relationship {
            id: self.id.copy(),
            slug: self.slug.clone(),
            purpose: self.purpose.clone(),
            from: self.from.duplicate(),
            to: self.to.duplicate(),
            to_endpoint: self.to_endpoint.copy(),
            memo: self.memo.clone(),
        }
    }
}

impl Duplicate for Logical {
    fn duplicate(&self) -> (r: Logical) {
        let people = duplicate_all(&self.people);
        let systems = duplicate_all(&self.systems);
        let containers = duplicate_all(&self.containers);
        let relationships = duplicate_all(&self.relationships);
        let r = Logical { people, systems, containers, relationships };
        assert(r@.people =~= self@.people);
        assert(r@.systems =~= self@.systems);
        assert(r@.containers =~= self@.containers);
        assert(r@.relationships =~= self@.relationships);
        r
    }
}

impl Duplicate for Endpoint {
    fn duplicate(&self) -> (r: Endpoint) {
        self.copy()
    }
}

impl Duplicate for ContainerInstance {
    fn duplicate(&self) -> (r: ContainerInstance) {
        self.copy()
    }
}

impl Duplicate for DeploymentNode {
    fn duplicate(&self) -> (r: DeploymentNode) {
        self.copy()
    }
}

impl Duplicate for InfrastructureNode {
    fn duplicate(&self) -> (r: InfrastructureNode) {
        InfrastructureNode { id: self.id.copy(), slug: self.slug.clone(), endpoints: copy_endpoints(&self.endpoints) }
    }
}

impl Duplicate for SoftwareSystemInstance {
    fn duplicate(&self) -> (r: SoftwareSystemInstance) {
        SoftwareSystemInstance {
            id: self.id.copy(),
            slug: self.slug.clone(),
            system: self.system.copy(),
            endpoints: copy_endpoints(&self.endpoints),
            standalone: self.standalone,
        }
    }
}

impl Duplicate for InstanceRef {
    fn duplicate(&self) -> (r: InstanceRef) {
        match self {
            InstanceRef::One(id) => InstanceRef::One(id.copy()),
            InstanceRef::Pattern { slug_pattern, within, expect } => InstanceRef::Pattern {
                slug_pattern: slug_pattern.clone(),
                within: copy_opt_id(within),
                expect: *expect,
            },
        }
    }
}

impl Duplicate for Endpointing {
    fn duplicate(&self) -> (r: Endpointing) {
        match self {
            Endpointing::Instance { target, endpoint } => Endpointing::Instance {
                target: target.duplicate(),
                endpoint: copy_opt_id(endpoint),
            },
            Endpointing::Infra { node, endpoint } => Endpointing::Infra { node: node.copy(), endpoint: copy_opt_id(endpoint) },
            Endpointing::System { instance, endpoint } => Endpointing::System {
                instance: instance.copy(),
                endpoint: copy_opt_id(endpoint),
            },
            Endpointing::Person { person } => Endpointing::Person { person: person.copy() },
        }
    }
}

impl Duplicate for Connection {
    fn duplicate(&self) -> (r: Connection) {
        Connection {
            id: self.id.copy(),
            serves: self.serves.copy(),
            purpose: self.purpose.clone(),
            kind: self.kind,
            from: self.from.duplicate(),
            to: self.to.duplicate(),
            memo: self.memo.clone(),
        }
    }
}

impl Duplicate for Environment {
    fn duplicate(&self) -> (r: Environment) {
        let infra = duplicate_all(&self.infra);
        let systems = duplicate_all(&self.systems);
        let connections = duplicate_all(&self.connections);
        let r = Environment {
            id: self.id.copy(),
            slug: self.slug.clone(),
            name: self.name.clone(),
            nodes: copy_nodes(&self.nodes),
            infra,
            systems,
            connections,
            memo: self.memo.clone(),
        };
        assert(r@.infra =~= self@.infra);
        assert(r@.systems =~= self@.systems);
        assert(r@.connections =~= self@.connections);
        r
    }
}

impl Duplicate for Project {
    fn duplicate(&self) -> (r: Project) {
        let environments = duplicate_all(&self.environments);
        let r = Project {
            id: self.id.copy(),
            slug: self.slug.clone(),
            name: self.name.clone(),
            memo: self.memo.clone(),
            logical: self.logical.duplicate(),
            environments,
        };
        assert(r@.environments =~= self@.environments);
        r
    }
}

impl Duplicate for Resource {
    fn duplicate(&self) -> (r: Resource) {
        match self {
            Resource::Person(p) => Resource::Person(p.duplicate()),
            Resource::System(s) => Resource::System(s.duplicate()),
            Resource::Container(c) => Resource::Container(c.duplicate()),
            Resource::EndpointDef { owner, def } => Resource::EndpointDef { owner: owner.copy(), def: def.duplicate() },
            Resource::Relationship(x) => Resource::Relationship(x.duplicate()),
            Resource::Environment(e) => Resource::Environment(e.duplicate()),
            Resource::Node { environment, within, node } => Resource::Node {
                environment: environment.copy(),
                within: copy_opt_id(within),
                node: node.copy(),
            },
            Resource::Infra { environment, node } => Resource::Infra { environment: environment.copy(), node: node.duplicate() },
            Resource::InfraEndpoint { environment, node, endpoint } => Resource::InfraEndpoint {
                environment: environment.copy(),
                node: node.copy(),
                endpoint: endpoint.copy(),
            },
            Resource::Instance { environment, node, instance } => Resource::Instance {
                environment: environment.copy(),
                node: node.copy(),
                instance: instance.copy(),
            },
            Resource::SystemInstance { environment, instance } => Resource::SystemInstance {
                environment: environment.copy(),
                instance: instance.duplicate(),
            },
        }
    }
}

// ---- comparisons ----

/// A value that can be compared with another by its view.
pub trait Same: Sized + View {
    fn same(&self, other: &Self) -> (r: bool)
        ensures
            r == (self@ == other@);
}

/// Whether two lists have the same views, element by element.
pub fn same_all<T: Same>(a: &Vec<T>, b: &Vec<T>) -> (r: bool)
    ensures
        r == (views(a@) == views(b@)),
{
    if a.len() != b.len() {
        proof {
            assert(views(a@).len() != views(b@).len());
        }
        return false;
    }
    let mut i: usize = 0;
    while i < a.len()
        invariant
            i <= a@.len(),
            a@.len() == b@.len(),
            forall|k: int| 0 <= k < i ==> a@[k]@ == b@[k]@,
        decreases a.len() - i,
    {
        if !a[i].same(&b[i]) {
            proof {
                assert(views(a@)[i as int] != views(b@)[i as int]);
            }
            return false;
        }
        i += 1;
    }
    assert(views(a@) =~= views(b@));
    true
}

fn same_opt_id(a: &Option<Id>, b: &Option<Id>) -> (r: bool)
    ensures
        r == (opt_id_view(*a) == opt_id_view(*b)),
{
    match (a, b) {
        (None, None) => true,
        (Some(x), Some(y)) => x.same(y),
        _ => false,
    }
}

fn same_opt_text(a: &Option<String>, b: &Option<String>) -> (r: bool)
    ensures
        r == (opt_text_view(*a) == opt_text_view(*b)),
{
    match (a, b) {
        (None, None) => true,
        (Some(x), Some(y)) => *x == *y,
        _ => false,
    }
}

impl Same for Person {
    fn same(&self, other: &Person) -> (r: bool) {
        self.id.same(&other.id) && self.slug == other.slug && self.name == other.name && self.memo == other.memo
    }
}

impl Same for EndpointDef {
    fn same(&self, other: &EndpointDef) -> (r: bool) {
        self.id.same(&other.id) && self.slug == other.slug && self.protocol == other.protocol && self.memo == other.memo
    }
}

fn same_defs(a: &Vec<EndpointDef>, b: &Vec<EndpointDef>) -> (r: bool)
    ensures
        r == (defs_view(a@) == defs_view(b@)),
{
    assert(defs_view(a@) =~= views(a@));
    assert(defs_view(b@) =~= views(b@));
    same_all(a, b)
}

impl Same for SoftwareSystem {
    fn same(&self, other: &SoftwareSystem) -> (r: bool) {
        self.id.same(&other.id) && self.slug == other.slug && self.name == other.name && self.external == other.external
            && same_defs(&self.endpoints, &other.endpoints) && self.memo == other.memo
    }
}

impl Same for Container {
    fn same(&self, other: &Container) -> (r: bool) {
        self.id.same(&other.id) && self.slug == other.slug && self.name == other.name && self.system.same(&other.system)
            && same_defs(&self.endpoints, &other.endpoints) && self.memo == other.memo
    }
}

impl Same for RelationshipEnd {
    fn same(&self, other: &RelationshipEnd) -> (r: bool) {
        match (self, other) {
            (RelationshipEnd::Container(a), RelationshipEnd::Container(b)) => a.same(b),
            (RelationshipEnd::System(a), RelationshipEnd::System(b)) => a.same(b),
            (RelationshipEnd::Person(a), RelationshipEnd::Person(b)) => a.same(b),
            _ => false,
        }
    }
}

impl Same for Relationship {
    fn same(&self, other: &Relationship) -> (r: bool) {
        self.id.same(&other.id) && self.slug == other.slug && self.purpose == other.purpose && self.from.same(&other.from)
            && self.to.same(&other.to) && self.to_endpoint.same(&other.to_endpoint) && self.memo == other.memo
    }
}

impl Same for Logical {
    fn same(&self, other: &Logical) -> (r: bool) {
        let r = same_all(&self.people, &other.people) && same_all(&self.systems, &other.systems)
            && same_all(&self.containers, &other.containers) && same_all(&self.relationships, &other.relationships);
        assert(views(self.people@) =~= self@.people && views(other.people@) =~= other@.people);
        assert(views(self.systems@) =~= self@.systems && views(other.systems@) =~= other@.systems);
        assert(views(self.containers@) =~= self@.containers && views(other.containers@) =~= other@.containers);
        assert(views(self.relationships@) =~= self@.relationships && views(other.relationships@) =~= other@.relationships);
        r
    }
}

impl Same for Endpoint {
    fn same(&self, other: &Endpoint) -> (r: bool) {
        self.id.same(&other.id) && self.slug == other.slug && same_opt_id(&self.def, &other.def)
            && self.protocol == other.protocol && same_opt_text(&self.address, &other.address)
    }
}

fn same_endpoints(a: &Vec<Endpoint>, b: &Vec<Endpoint>) -> (r: bool)
    ensures
        r == (endpoints_view(a@) == endpoints_view(b@)),
{
    assert(endpoints_view(a@) =~= views(a@));
    assert(endpoints_view(b@) =~= views(b@));
    same_all(a, b)
}

impl Same for ContainerInstance {
    fn same(&self, other: &ContainerInstance) -> (r: bool) {
        self.id.same(&other.id) && self.slug == other.slug && self.container.same(&other.container)
            && same_endpoints(&self.endpoints, &other.endpoints) && self.standalone == other.standalone
            && self.memo == other.memo
    }
}

impl Same for DeploymentNode {
    fn same(&self, other: &DeploymentNode) -> (r: bool)
        decreases self,
    {
        proof {
            lemma_children_view(*self);
            lemma_children_view(*other);
        }
        if !(self.id.same(&other.id) && self.slug == other.slug && self.kind == other.kind && self.memo == other.memo) {
            return false;
        }
        let ins = same_all(&self.instances, &other.instances);
        assert(views(self.instances@) =~= self@.instances && views(other.instances@) =~= other@.instances);
        if !ins {
            return false;
        }
        if self.children.len() != other.children.len() {
            assert(self@.children.len() != other@.children.len());
            return false;
        }
        let mut i: usize = 0;
        while i < self.children.len()
            invariant
                i <= self.children@.len(),
                self.children@.len() == other.children@.len(),
                self@.children == nodes_view(self.children@),
                other@.children == nodes_view(other.children@),
                forall|k: int| 0 <= k < i ==> self.children@[k]@ == other.children@[k]@,
            decreases self.children.len() - i,
        {
            if !self.children[i].same(&other.children[i]) {
                assert(nodes_view(self.children@)[i as int] != nodes_view(other.children@)[i as int]);
                return false;
            }
            i += 1;
        }
        assert(nodes_view(self.children@) =~= nodes_view(other.children@));
        true
    }
}

impl Same for InfrastructureNode {
    fn same(&self, other: &InfrastructureNode) -> (r: bool) {
        self.id.same(&other.id) && self.slug == other.slug && same_endpoints(&self.endpoints, &other.endpoints)
    }
}

impl Same for SoftwareSystemInstance {
    fn same(&self, other: &SoftwareSystemInstance) -> (r: bool) {
        self.id.same(&other.id) && self.slug == other.slug && self.system.same(&other.system)
            && same_endpoints(&self.endpoints, &other.endpoints) && self.standalone == other.standalone
    }
}

impl Same for InstanceRef {
    fn same(&self, other: &InstanceRef) -> (r: bool) {
        match (self, other) {
            (InstanceRef::One(a), InstanceRef::One(b)) => a.same(b),
            (
                InstanceRef::Pattern { slug_pattern: p1, within: w1, expect: e1 },
                InstanceRef::Pattern { slug_pattern: p2, within: w2, expect: e2 },
            ) => *p1 == *p2 && same_opt_id(w1, w2) && *e1 == *e2,
            _ => false,
        }
    }
}

impl Same for Endpointing {
    fn same(&self, other: &Endpointing) -> (r: bool) {
        match (self, other) {
            (Endpointing::Instance { target: t1, endpoint: e1 }, Endpointing::Instance { target: t2, endpoint: e2 }) => t1.same(t2)
                && same_opt_id(e1, e2),
            (Endpointing::Infra { node: n1, endpoint: e1 }, Endpointing::Infra { node: n2, endpoint: e2 }) => n1.same(n2)
                && same_opt_id(e1, e2),
            (Endpointing::System { instance: i1, endpoint: e1 }, Endpointing::System { instance: i2, endpoint: e2 }) => i1.same(i2)
                && same_opt_id(e1, e2),
            (Endpointing::Person { person: a }, Endpointing::Person { person: b }) => a.same(b),
            _ => false,
        }
    }
}

impl Same for Connection {
    fn same(&self, other: &Connection) -> (r: bool) {
        self.id.same(&other.id) && self.serves.same(&other.serves) && self.purpose == other.purpose && self.kind == other.kind
            && self.from.same(&other.from) && self.to.same(&other.to) && self.memo == other.memo
    }
}

impl Same for Environment {
    fn same(&self, other: &Environment) -> (r: bool) {
        let nodes = same_all(&self.nodes, &other.nodes);
        assert(views(self.nodes@) =~= self@.nodes && views(other.nodes@) =~= other@.nodes);
        let infra = same_all(&self.infra, &other.infra);
        assert(views(self.infra@) =~= self@.infra && views(other.infra@) =~= other@.infra);
        let systems = same_all(&self.systems, &other.systems);
        assert(views(self.systems@) =~= self@.systems && views(other.systems@) =~= other@.systems);
        let connections = same_all(&self.connections, &other.connections);
        assert(views(self.connections@) =~= self@.connections && views(other.connections@) =~= other@.connections);
        self.id.same(&other.id) && self.slug == other.slug && self.name == other.name && nodes && infra && systems
            && connections && self.memo == other.memo
    }
}

impl Same for Project {
    fn same(&self, other: &Project) -> (r: bool) {
        let envs = same_all(&self.environments, &other.environments);
        assert(views(self.environments@) =~= self@.environments && views(other.environments@) =~= other@.environments);
        self.id.same(&other.id) && self.slug == other.slug && self.name == other.name && self.memo == other.memo
            && self.logical.same(&other.logical) && envs
    }
}

} // verus!