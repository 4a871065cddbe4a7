//! The environment layer: where the logical master lands in one environment.
//!
//! prod / test / dev are each an [`Environment`]. The same logical service may have
//! different addresses, ports and node counts in each.

use vstd::prelude::*;
use crate::id::Id;
use crate::logical::{Protocol, first_index, lemma_first_index, lemma_first_index_unique};
use crate::pattern::glob;

verus! {

/// The kind of a compute carrier.
#[derive(Debug, Clone, Copy, PartialEq, Eq, Structural)]
pub enum NodeKind {
    /// A data centre, campus or zone: it holds other nodes and runs nothing itself.
    Site,
    Physical,
    VirtualMachine,
    LinuxContainer,
}

pub open spec fn opt_id_view(o: Option<Id>) -> Option<Seq<char>> {
    match o {
        Some(i) => Some(i@),
        None => None,
    }
}

pub open spec fn opt_text_view(o: Option<String>) -> Option<Seq<char>> {
    match o {
        Some(s) => Some(s@),
        None => None,
    }
}

/// An endpoint as it is in one environment: its definition plus an address.
#[derive(Debug, Clone, PartialEq, Eq)]
pub struct Endpoint {
    pub id: Id,
    pub slug: String,
    /// The logical `EndpointDef` it realises. `None` on infrastructure nodes.
    pub def: Option<Id>,
    pub protocol: Protocol,
    /// `10.0.1.11:6379`, a JDBC URL, a socket path. Missing raises L006.
    pub address: Option<String>,
}

pub struct EndpointView {
    pub id: Seq<char>,
    pub slug: Seq<char>,
    pub def: Option<Seq<char>>,
    pub protocol: Protocol,
    pub address: Option<Seq<char>>,
}

impl View for Endpoint {
    type V = EndpointView;

    open spec fn view(&self) -> EndpointView {
        EndpointView {
            id: self.id@,
            slug: self.slug@,
            def: opt_id_view(self.def),
            protocol: self.protocol,
            address: opt_text_view(self.address),
        }
    }
}

pub open spec fn endpoints_view(s: Seq<Endpoint>) -> Seq<EndpointView> {
    s.map_values(|e: Endpoint| e@)
}

/// One landing of a logical service in this environment. C4's `Container Instance`.
#[derive(Debug, Clone, PartialEq, Eq)]
pub struct ContainerInstance {
    pub id: Id,
    pub slug: String,
    pub container: Id,
    pub endpoints: Vec<Endpoint>,
    /// Marked as deliberately alone; turns off the L008 warning.
    pub standalone: bool,
    pub memo: String,
}

pub struct ContainerInstanceView {
    pub id: Seq<char>,
    pub slug: Seq<char>,
    pub container: Seq<char>,
    pub endpoints: Seq<EndpointView>,
    pub standalone: bool,
    pub memo: Seq<char>,
}

impl View for ContainerInstance {
    type V = ContainerInstanceView;

    open spec fn view(&self) -> ContainerInstanceView {
        ContainerInstanceView {
            id: self.id@,
            slug: self.slug@,
            container: self.container@,
            endpoints: endpoints_view(self.endpoints@),
            standalone: self.standalone,
            memo: self.memo@,
        }
    }
}

pub open spec fn instances_view(s: Seq<ContainerInstance>) -> Seq<ContainerInstanceView> {
    s.map_values(|i: ContainerInstance| i@)
}

pub open spec fn instance_refs_view(s: Seq<&ContainerInstance>) -> Seq<ContainerInstanceView> {
    s.map_values(|i: &ContainerInstance| i@)
}

/// A machine: physical, virtual, or a Linux container. C4's `Deployment Node`; nests.
#[derive(Debug, PartialEq, Eq)]
pub struct DeploymentNode {
    pub id: Id,
    pub slug: String,
    pub kind: NodeKind,
    pub children: Vec<DeploymentNode>,
    pub instances: Vec<ContainerInstance>,
    pub memo: String,
}

pub struct DeploymentNodeView {
    pub id: Seq<char>,
    pub slug: Seq<char>,
    pub kind: NodeKind,
    pub children: Seq<DeploymentNodeView>,
    pub instances: Seq<ContainerInstanceView>,
    pub memo: Seq<char>,
}

pub open spec fn node_view(n: DeploymentNode) -> DeploymentNodeView
    decreases n,
{
    DeploymentNodeView {
        id: n.id@,
        slug: n.slug@,
        kind: n.kind,
        children: Seq::new(
            n.children@.len(),
            |i: int|
                if 0 <= i < n.children@.len() {
                    node_view(n.children@[i])
                } else {
                    DeploymentNodeView {
                        id: seq![],
                        slug: seq![],
                        kind: NodeKind::Site,
                        children: seq![],
                        instances: seq![],
                        memo: seq![],
                    }
                },
        ),
        instances: instances_view(n.instances@),
        memo: n.memo@,
    }
}

impl View for DeploymentNode {
    type V = DeploymentNodeView;

    open spec fn view(&self) -> DeploymentNodeView {
        node_view(*self)
    }
}

pub open spec fn nodes_view(s: Seq<DeploymentNode>) -> Seq<DeploymentNodeView> {
    s.map_values(|n: DeploymentNode| n@)
}

pub proof fn lemma_children_view(n: DeploymentNode)
    ensures
        n@.children == nodes_view(n.children@),
{
    assert(n@.children =~= nodes_view(n.children@));
}

/// All instances in a node and below it: its own first, then each child's in order.
pub open spec fn tree_instances(n: DeploymentNodeView) -> Seq<ContainerInstanceView>
    decreases n,
{
    n.instances + forest_instances(n.children)
}

/// All instances in a sequence of nodes, in order.
pub open spec fn forest_instances(s: Seq<DeploymentNodeView>) -> Seq<ContainerInstanceView>
    decreases s,
{
    if s.len() == 0 {
        seq![]
    } else {
        forest_instances(s.drop_last()) + tree_instances(s.last())
    }
}

impl DeploymentNode {
    /// The instances on this node and on every node below it.
    pub fn instances_recursive(&self) -> (r: Vec<&ContainerInstance>)
        ensures
            instance_refs_view(r@) == tree_instances(self@),
        decreases self,
    {
        let mut found: Vec<&ContainerInstance> = Vec::new();
        let mut i: usize = 0;
        while i < self.instances.len()
            invariant
                i <= self.instances.len(),
                instance_refs_view(found@) == instances_view(self.instances@).take(i as int),
            decreases self.instances.len() - i,
        {
            let ghost before = found@;
            found.push(&self.instances[i]);
            proof {
                assert(instance_refs_view(found@) =~= instance_refs_view(before).push(self.instances@[i as int]@));
                assert(instances_view(self.instances@).take(i + 1) =~= instances_view(self.instances@).take(i as int).push(self.instances@[i as int]@));
            }
            i += 1;
        }
        assert(instances_view(self.instances@).take(i as int) =~= self@.instances);
        proof {
            lemma_children_view(*self);
        }
        let mut j: usize = 0;
        while j < self.children.len()
            invariant
                j <= self.children.len(),
                self@.children == nodes_view(self.children@),
                instance_refs_view(found@) == self@.instances + forest_instances(
                    self@.children.take(j as int),
                ),
            decreases self.children.len() - j,
        {
            let sub = self.children[j].instances_recursive();
            let ghost before = found@;
            let mut k: usize = 0;
            while k < sub.len()
                invariant
                    k <= sub.len(),
                    found@ == before + sub@.take(k as int),
                decreases sub.len() - k,
            {
                found.push(sub[k]);
                k += 1;
                assert(found@ =~= before + sub@.take(k as int));
            }
            proof {
                assert(sub@.take(sub.len() as int) =~= sub@);
                let c = self@.children.take(j + 1);
                assert(c.drop_last() =~= self@.children.take(j as int));
                assert(c.last() == self.children@[j as int]@);
                assert(instance_refs_view(before + sub@) =~= instance_refs_view(before)
                    + instance_refs_view(sub@));
            }
            j += 1;
        }
        assert(self@.children.take(j as int) =~= self@.children);
        found
    }
}

/// The instances of a sequence of nodes, collected in order.
fn forest_instance_refs(nodes: &Vec<DeploymentNode>) -> (r: Vec<&ContainerInstance>)
    ensures
        instance_refs_view(r@) == forest_instances(nodes_view(nodes@)),
{
    let mut found: Vec<&ContainerInstance> = Vec::new();
    let mut j: usize = 0;
    while j < nodes.len()
        invariant
            j <= nodes.len(),
            instance_refs_view(found@) == forest_instances(nodes_view(nodes@).take(j as int)),
        decreases nodes.len() - j,
    {
        let sub = nodes[j].instances_recursive();
        let ghost before = found@;
        let mut k: usize = 0;
        while k < sub.len()
            invariant
                k <= sub.len(),
                found@ == before + sub@.take(k as int),
            decreases sub.len() - k,
        {
            found.push(sub[k]);
            k += 1;
            assert(found@ =~= before + sub@.take(k as int));
        }
        proof {
            assert(sub@.take(sub.len() as int) =~= sub@);
            let c = nodes_view(nodes@).take(j + 1);
            assert(c.drop_last() =~= nodes_view(nodes@).take(j as int));
            assert(instance_refs_view(before + sub@) =~= instance_refs_view(before)
                + instance_refs_view(sub@));
        }
        j += 1;
    }
    assert(nodes_view(nodes@).take(j as int) =~= nodes_view(nodes@));
    found
}

/// An external system as it lands in this environment. C4's `Software System Instance`.
#[derive(Debug, Clone, PartialEq, Eq)]
pub struct SoftwareSystemInstance {
    pub id: Id,
    pub slug: String,
    pub system: Id,
    pub endpoints: Vec<Endpoint>,
    /// Like [`ContainerInstance::standalone`]; turns off L008.
    pub standalone: bool,
}

pub struct SoftwareSystemInstanceView {
    pub id: Seq<char>,
    pub slug: Seq<char>,
    pub system: Seq<char>,
    pub endpoints: Seq<EndpointView>,
    pub standalone: bool,
}

impl View for SoftwareSystemInstance {
    type V = SoftwareSystemInstanceView;

    open spec fn view(&self) -> SoftwareSystemInstanceView {
        SoftwareSystemInstanceView {
            id: self.id@,
            slug: self.slug@,
            system: self.system@,
            endpoints: endpoints_view(self.endpoints@),
            standalone: self.standalone,
        }
    }
}

/// A VIP device such as an F5. C4's `Infrastructure Node`.
#[derive(Debug, Clone, PartialEq, Eq)]
pub struct InfrastructureNode {
    pub id: Id,
    pub slug: String,
    pub endpoints: Vec<Endpoint>,
}

pub struct InfrastructureNodeView {
    pub id: Seq<char>,
    pub slug: Seq<char>,
    pub endpoints: Seq<EndpointView>,
}

impl View for InfrastructureNode {
    type V = InfrastructureNodeView;

    open spec fn view(&self) -> InfrastructureNodeView {
        InfrastructureNodeView { id: self.id@, slug: self.slug@, endpoints: endpoints_view(self.endpoints@) }
    }
}

/// Which end of a connection.
#[derive(Debug, Clone, Copy, PartialEq, Eq, Structural, Hash)]
pub enum ConnectionEnd {
    From,
    To,
}

impl ConnectionEnd {
    /// The name shown to people.
    pub fn label(&self) -> (r: &'static str)
        ensures
            r@ == (match *self {
                ConnectionEnd::From => "來源"@,
                ConnectionEnd::To => "目標"@,
            }),
    {
        match self {
            ConnectionEnd::From => "來源",
            ConnectionEnd::To => "目標",
        }
    }
}

/// What one end of a connection points at: one instance, or a whole group.
#[derive(Debug, Clone, PartialEq, Eq)]
pub enum InstanceRef {
    /// One named instance.
    One(Id),
    /// A wildcard such as `redis-*`.
    Pattern {
        slug_pattern: String,
        /// Count only the instances under this node (and its descendants).
        within: Option<Id>,
        /// The expected count. Missing raises L005.
        expect: Option<u32>,
    },
}

pub enum InstanceRefView {
    One(Seq<char>),
    Pattern { slug_pattern: Seq<char>, within: Option<Seq<char>>, expect: Option<u32> },
}

impl View for InstanceRef {
    type V = InstanceRefView;

    open spec fn view(&self) -> InstanceRefView {
        match self {
            InstanceRef::One(id) => InstanceRefView::One(id@),
            InstanceRef::Pattern { slug_pattern, within, expect } => InstanceRefView::Pattern {
                slug_pattern: slug_pattern@,
                within: opt_id_view(*within),
                expect: *expect,
            },
        }
    }
}

/// One end of a connection.
#[derive(Debug, Clone, PartialEq, Eq)]
pub enum Endpointing {
    Instance {
        target: InstanceRef,
        /// The logical endpoint definition. `None` on a source: the OS picks the port.
        endpoint: Option<Id>,
    },
    Infra {
        node: Id,
        /// A concrete endpoint on that device.
        endpoint: Option<Id>,
    },
    /// An external system. No wildcards.
    System {
        instance: Id,
        endpoint: Option<Id>,
    },
    /// A person. Only ever a source.
    Person { person: Id },
}

pub enum EndpointingView {
    Instance { target: InstanceRefView, endpoint: Option<Seq<char>> },
    Infra { node: Seq<char>, endpoint: Option<Seq<char>> },
    System { instance: Seq<char>, endpoint: Option<Seq<char>> },
    Person { person: Seq<char> },
}

impl View for Endpointing {
    type V = EndpointingView;

    open spec fn view(&self) -> EndpointingView {
        match self {
            Endpointing::Instance { target, endpoint } => EndpointingView::Instance {
                target: target@,
                endpoint: opt_id_view(*endpoint),
            },
            Endpointing::Infra { node, endpoint } => EndpointingView::Infra {
                node: node@,
                endpoint: opt_id_view(*endpoint),
            },
            Endpointing::System { instance, endpoint } => EndpointingView::System {
                instance: instance@,
                endpoint: opt_id_view(*endpoint),
            },
            Endpointing::Person { person } => EndpointingView::Person { person: person@ },
        }
    }
}

/// Whether a connection is the usual path or a fallback.
#[derive(Debug, Clone, Copy, PartialEq, Eq, Structural)]
pub enum ConnectionKind {
    /// The path normally taken. The default.
    Primary,
    /// Taken only on failure. It must be built all the same.
    Fallback,
}

impl Default for ConnectionKind {
    fn default() -> (r: ConnectionKind)
        ensures
            r == ConnectionKind::Primary,
    {
        ConnectionKind::Primary
    }
}

impl ConnectionKind {
    /// Whether this is the default kind (which need not be written out).
    pub fn is_primary(&self) -> (r: bool)
        ensures
            r == (*self == ConnectionKind::Primary),
    {
        match self {
            ConnectionKind::Primary => true,
            ConnectionKind::Fallback => false,
        }
    }
}

/// One actual connection in an environment. `serves` names the relationship it realises.
#[derive(Debug, Clone, PartialEq, Eq)]
pub struct Connection {
    pub id: Id,
    pub serves: Id,
    /// What it is for. A blank purpose raises L007.
    pub purpose: String,
    pub kind: ConnectionKind,
    pub from: Endpointing,
    pub to: Endpointing,
    pub memo: String,
}

pub struct ConnectionView {
    pub id: Seq<char>,
    pub serves: Seq<char>,
    pub purpose: Seq<char>,
    pub kind: ConnectionKind,
    pub from: EndpointingView,
    pub to: EndpointingView,
    pub memo: Seq<char>,
}

impl View for Connection {
    type V = ConnectionView;

    open spec fn view(&self) -> ConnectionView {
        ConnectionView {
            id: self.id@,
            serves: self.serves@,
            purpose: self.purpose@,
            kind: self.kind,
            from: self.from@,
            to: self.to@,
            memo: self.memo@,
        }
    }
}

/// One deployment environment.
#[derive(Debug, Clone, PartialEq, Eq)]
pub struct Environment {
    pub id: Id,
    pub slug: String,
    pub name: String,
    pub nodes: Vec<DeploymentNode>,
    pub infra: Vec<InfrastructureNode>,
    /// External systems landing here; not under `nodes`, those machines are not ours.
    pub systems: Vec<SoftwareSystemInstance>,
    pub connections: Vec<Connection>,
    pub memo: String,
}

pub struct EnvironmentView {
    pub id: Seq<char>,
    pub slug: Seq<char>,
    pub name: Seq<char>,
    pub nodes: Seq<DeploymentNodeView>,
    pub infra: Seq<InfrastructureNodeView>,
    pub systems: Seq<SoftwareSystemInstanceView>,
    pub connections: Seq<ConnectionView>,
    pub memo: Seq<char>,
}

impl View for Environment {
    type V = EnvironmentView;

    open spec fn view(&self) -> EnvironmentView {
        EnvironmentView {
            id: self.id@,
            slug: self.slug@,
            name: self.name@,
            nodes: nodes_view(self.nodes@),
            infra: self.infra@.map_values(|n: InfrastructureNode| n@),
            systems: self.systems@.map_values(|s: SoftwareSystemInstance| s@),
            connections: self.connections@.map_values(|c: Connection| c@),
            memo: self.memo@,
        }
    }
}

/// Every instance of an environment, nested ones included, in tree order.
pub open spec fn env_instances(e: EnvironmentView) -> Seq<ContainerInstanceView> {
    forest_instances(e.nodes)
}

pub open spec fn instance_ids(s: Seq<ContainerInstanceView>) -> Seq<Seq<char>> {
    s.map_values(|i: ContainerInstanceView| i.id)
}

pub open spec fn infra_ids(e: EnvironmentView) -> Seq<Seq<char>> {
    e.infra.map_values(|n: InfrastructureNodeView| n.id)
}

pub open spec fn system_instance_ids(e: EnvironmentView) -> Seq<Seq<char>> {
    e.systems.map_values(|s: SoftwareSystemInstanceView| s.id)
}

pub open spec fn matching_slug(pattern: Seq<char>) -> spec_fn(ContainerInstanceView) -> bool {
    |i: ContainerInstanceView| glob(pattern, i.slug)
}

impl Environment {
    /// Every instance in this environment, nested ones included.
    pub fn instances(&self) -> (r: Vec<&ContainerInstance>)
        ensures
            instance_refs_view(r@) == env_instances(self@),
    {
        forest_instance_refs(&self.nodes)
    }

    /// The instance with this id.
    pub fn instance(&self, id: &Id) -> (r: Option<&ContainerInstance>)
        ensures
            match first_index(instance_ids(env_instances(self@)), id@) {
                Some(k) => r matches Some(x) && x@ == env_instances(self@)[k],
                None => r is None,
            },
    {
        let all = self.instances();
        let ghost ids = instance_ids(env_instances(self@));
        proof {
            lemma_first_index(ids, id@);
        }
        let mut i: usize = 0;
        while i < all.len()
            invariant
                i <= all.len(),
                instance_refs_view(all@) == env_instances(self@),
                ids == instance_ids(env_instances(self@)),
                forall|j: int| 0 <= j < i ==> ids[j] != id@,
            decreases all.len() - i,
        {
            if all[i].id.same(id) {
                proof {
                    assert(ids[i as int] == id@);
                    lemma_first_index_unique(ids, id@, i as int);
                }
                return Some(all[i]);
            }
            assert(ids[i as int] == all@[i as int]@.id);
            i += 1;
        }
        None
    }

    /// The infrastructure node with this id.
    pub fn infra_node(&self, id: &Id) -> (r: Option<&InfrastructureNode>)
        ensures
            match first_index(infra_ids(self@), id@) {
                Some(k) => r matches Some(x) && x@ == self@.infra[k],
                None => r is None,
            },
    {
        proof {
            lemma_first_index(infra_ids(self@), id@);
        }
        let mut i: usize = 0;
        while i < self.infra.len()
            invariant
                i <= self.infra.len(),
                forall|j: int| 0 <= j < i ==> self.infra@[j].id@ != id@,
            decreases self.infra.len() - i,
        {
            if self.infra[i].id.same(id) {
                proof {
                    assert(infra_ids(self@)[i as int] == id@);
                    lemma_first_index_unique(infra_ids(self@), id@, i as int);
                }
                return Some(&self.infra[i]);
            }
            i += 1;
        }
        None
    }

    /// The external-system landing with this id.
    pub fn system_instance(&self, id: &Id) -> (r: Option<&SoftwareSystemInstance>)
        ensures
            match first_index(system_instance_ids(self@), id@) {
                Some(k) => r matches Some(x) && x@ == self@.systems[k],
                None => r is None,
            },
    {
        proof {
            lemma_first_index(system_instance_ids(self@), id@);
        }
        let mut i: usize = 0;
        while i < self.systems.len()
            invariant
                i <= self.systems.len(),
                forall|j: int| 0 <= j < i ==> self.systems@[j].id@ != id@,
            decreases self.systems.len() - i,
        {
            if self.systems[i].id.same(id) {
                proof {
                    assert(system_instance_ids(self@)[i as int] == id@);
                    lemma_first_index_unique(system_instance_ids(self@), id@, i as int);
                }
                return Some(&self.systems[i]);
            }
            i += 1;
        }
        None
    }

    /// Every instance whose slug matches the wildcard pattern, in tree order.
    pub fn instances_matching(&self, pattern: &str) -> (r: Vec<&ContainerInstance>)
        ensures
            instance_refs_view(r@) == env_instances(self@).filter(matching_slug(pattern@)),
    {
        let all = self.instances();
        let ghost pred = matching_slug(pattern@);
        let mut out: Vec<&ContainerInstance> = Vec::new();
        let mut i: usize = 0;
        while i < all.len()
            invariant
                i <= all.len(),
                pred == matching_slug(pattern@),
                instance_refs_view(all@) == env_instances(self@),
                instance_refs_view(out@) == env_instances(self@).take(i as int).filter(pred),
            decreases all.len() - i,
        {
            proof {
                let s = env_instances(self@);
                assert(s.take(i + 1).drop_last() =~= s.take(i as int));
                reveal(Seq::filter);
            }
            if crate::pattern::matches(pattern, all[i].slug.as_str()) {
                out.push(all[i]);
            }
            proof {
                assert(instance_refs_view(out@) =~= env_instances(self@).take(i + 1).filter(pred));
            }
            i += 1;
        }
        assert(env_instances(self@).take(i as int) =~= env_instances(self@));
        out
    }
}

/// A copy of an optional id.
pub fn copy_opt_id(o: &Option<Id>) -> (r: Option<Id>)
    ensures
        opt_id_view(r) == opt_id_view(*o),
{
    match o {
        Some(i) => Some(i.copy()),
        None => None,
    }
}

/// A copy of an optional text.
pub fn copy_opt_text(o: &Option<String>) -> (r: Option<String>)
    ensures
        opt_text_view(r) == opt_text_view(*o),
{
    match o {
        Some(s) => Some(s.clone()),
        None => None,
    }
}

impl Endpoint {
    /// A copy with the same view.
    pub fn copy(&self) -> (r: Endpoint)
        ensures
            r@ == self@,
    {
        Endpoint {
            id: self.id.copy(),
            slug: self.slug.clone(),
            def: copy_opt_id(&self.def),
            protocol: self.protocol,
            address: copy_opt_text(&self.address),
        }
    }
}

/// A copy of a list of endpoints.
pub fn copy_endpoints(v: &Vec<Endpoint>) -> (r: Vec<Endpoint>)
    ensures
        endpoints_view(r@) == endpoints_view(v@),
{
    let mut out: Vec<Endpoint> = Vec::new();
    let mut i: usize = 0;
    while i < v.len()
        invariant
            i <= v.len(),
            endpoints_view(out@) == endpoints_view(v@).take(i as int),
        decreases v.len() - i,
    {
        let ghost before = out@;
        let e = v[i].copy();
        out.push(e);
        proof {
            assert(out@ == before.push(e));
            assert(endpoints_view(out@) =~= endpoints_view(before).push(e@));
            assert(endpoints_view(v@).take(i + 1) =~= endpoints_view(v@).take(i as int).push(v@[i as int]@));
        }
        i += 1;
    }
    assert(endpoints_view(v@).take(i as int) =~= endpoints_view(v@));
    out
}

impl ContainerInstance {
    /// A copy with the same view.
    pub fn copy(&self) -> (r: ContainerInstance)
        ensures
            r@ == self@,
    {
        ContainerInstance {
            id: self.id.copy(),
            slug: self.slug.clone(),
            container: self.container.copy(),
            endpoints: copy_endpoints(&self.endpoints),
            standalone: self.standalone,
            memo: self.memo.clone(),
        }
    }
}

/// A copy of a list of instances.
pub fn copy_instances(v: &Vec<ContainerInstance>) -> (r: Vec<ContainerInstance>)
    ensures
        instances_view(r@) == instances_view(v@),
{
    let mut out: Vec<ContainerInstance> = Vec::new();
    let mut i: usize = 0;
    while i < v.len()
        invariant
            i <= v.len(),
            instances_view(out@) == instances_view(v@).take(i as int),
        decreases v.len() - i,
    {
        let ghost before = out@;
        let e = v[i].copy();
        out.push(e);
        proof {
            assert(instances_view(out@) =~= instances_view(before).push(e@));
            assert(instances_view(v@).take(i + 1) =~= instances_view(v@).take(i as int).push(v@[i as int]@));
        }
        i += 1;
    }
    assert(instances_view(v@).take(i as int) =~= instances_view(v@));
    out
}

impl DeploymentNode {
    /// A deep copy with the same view.
    pub fn copy(&self) -> (r: DeploymentNode)
        ensures
            r@ == self@,
        decreases self,
    {
        let mut children: Vec<DeploymentNode> = Vec::new();
        let mut i: usize = 0;
        while i < self.children.len()
            invariant
                i <= self.children.len(),
                nodes_view(children@) == nodes_view(self.children@).take(i as int),
            decreases self.children.len() - i,
        {
            let ghost before = children@;
            let e = self.children[i].copy();
            children.push(e);
            proof {
                assert(nodes_view(children@) =~= nodes_view(before).push(e@));
                assert(nodes_view(self.children@).take(i + 1) =~= nodes_view(self.children@).take(i as int).push(self.children@[i as int]@));
            }
            i += 1;
        }
        assert(nodes_view(self.children@).take(i as int) =~= nodes_view(self.children@));
        let r = DeploymentNode {
            id: self.id.copy(),
            slug: self.slug.clone(),
            kind: self.kind,
            children,
            instances: copy_instances(&self.instances),
            memo: self.memo.clone(),
        };
        proof {
            lemma_children_view(r);
            lemma_children_view(*self);
        }
        r
    }
}

impl Clone for DeploymentNode {
    fn clone(&self) -> Self {
        self.copy()
    }
}

/// A deep copy of a list of nodes.
pub fn copy_nodes(v: &Vec<DeploymentNode>) -> (r: Vec<DeploymentNode>)
    ensures
        nodes_view(r@) == nodes_view(v@),
{
    let mut out: Vec<DeploymentNode> = Vec::new();
    let mut i: usize = 0;
    while i < v.len()
        invariant
            i <= v.len(),
            nodes_view(out@) == nodes_view(v@).take(i as int),
        decreases v.len() - i,
    {
        let ghost before = out@;
        let e = v[i].copy();
        out.push(e);
        proof {
            assert(nodes_view(out@) =~= nodes_view(before).push(e@));
            assert(nodes_view(v@).take(i + 1) =~= nodes_view(v@).take(i as int).push(v@[i as int]@));
        }
        i += 1;
    }
    assert(nodes_view(v@).take(i as int) =~= nodes_view(v@));
    out
}

/// Whether a flag is off (the default, which need not be written out).
pub fn is_false(value: &bool) -> (r: bool)
    ensures
        r == !*value,
{
    !*value
}

} // verus!
