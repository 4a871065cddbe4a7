//! The logical layer: the master copy, defined once per project.
//!
//! It says only what exists and who must connect to whom; it holds no address,
//! port or machine. Naming follows C4: a `Container` is a service, not a machine.

use vstd::prelude::*;
use crate::id::Id;

verus! {

/// The kind of an endpoint.
#[derive(Debug, Clone, Copy, PartialEq, Eq, Structural, Hash)]
pub enum Protocol {
    Tcp,
    Udp,
    UnixSocket,
    Jdbc,
    File,
}

impl Protocol {
    /// The name shown to people.
    pub fn label(&self) -> (r: &'static str)
        ensures
            r@ == protocol_label(*self),
    {
        match self {
            Protocol::Tcp => "TCP",
            Protocol::Udp => "UDP",
            Protocol::UnixSocket => "Unix socket",
            Protocol::Jdbc => "JDBC",
            Protocol::File => "檔案",
        }
    }

    /// A copy of this protocol.
    pub fn copy(&self) -> (r: Protocol)
        ensures
            r == *self,
    {
        *self
    }
}

pub open spec fn protocol_label(p: Protocol) -> Seq<char> {
    match p {
        Protocol::Tcp => "TCP"@,
        Protocol::Udp => "UDP"@,
        Protocol::UnixSocket => "Unix socket"@,
        Protocol::Jdbc => "JDBC"@,
        Protocol::File => "檔案"@,
    }
}

/// A real person. Appears only as the source of a relationship.
#[derive(Debug, Clone, PartialEq, Eq)]
pub struct Person {
    pub id: Id,
    pub slug: String,
    pub name: String,
    pub memo: String,
}

pub struct PersonView {
    pub id: Seq<char>,
    pub slug: Seq<char>,
    pub name: Seq<char>,
    pub memo: Seq<char>,
}

impl View for Person {
    type V = PersonView;

    open spec fn view(&self) -> PersonView {
        PersonView { id: self.id@, slug: self.slug@, name: self.name@, memo: self.memo@ }
    }
}

/// The definition of an endpoint: a name and a protocol, no address.
#[derive(Debug, Clone, PartialEq, Eq)]
pub struct EndpointDef {
    pub id: Id,
    pub slug: String,
    pub protocol: Protocol,
    pub memo: String,
}

pub struct EndpointDefView {
    pub id: Seq<char>,
    pub slug: Seq<char>,
    pub protocol: Protocol,
    pub memo: Seq<char>,
}

impl View for EndpointDef {
    type V = EndpointDefView;

    open spec fn view(&self) -> EndpointDefView {
        EndpointDefView { id: self.id@, slug: self.slug@, protocol: self.protocol, memo: self.memo@ }
    }
}

pub open spec fn defs_view(s: Seq<EndpointDef>) -> Seq<EndpointDefView> {
    s.map_values(|d: EndpointDef| d@)
}

/// A software system: our own, or an external one (payments, SMS).
#[derive(Debug, Clone, PartialEq, Eq)]
pub struct SoftwareSystem {
    pub id: Id,
    pub slug: String,
    pub name: String,
    pub external: bool,
    /// Endpoints of an external system hang directly on it.
    pub endpoints: Vec<EndpointDef>,
    pub memo: String,
}

pub struct SoftwareSystemView {
    pub id: Seq<char>,
    pub slug: Seq<char>,
    pub name: Seq<char>,
    pub external: bool,
    pub endpoints: Seq<EndpointDefView>,
    pub memo: Seq<char>,
}

impl View for SoftwareSystem {
    type V = SoftwareSystemView;

    open spec fn view(&self) -> SoftwareSystemView {
        SoftwareSystemView {
            id: self.id@,
            slug: self.slug@,
            name: self.name@,
            external: self.external,
            endpoints: defs_view(self.endpoints@),
            memo: self.memo@,
        }
    }
}

/// Ids of a sequence of endpoint definitions.
pub open spec fn def_ids(defs: Seq<EndpointDefView>) -> Seq<Seq<char>> {
    defs.map_values(|d: EndpointDefView| d.id)
}

/// Index of the first endpoint definition with the given id, if any.
pub open spec fn def_position(defs: Seq<EndpointDefView>, id: Seq<char>) -> Option<int> {
    first_index(def_ids(defs), id)
}

/// The first endpoint definition in `defs` with the given id.
fn find_def<'a>(defs: &'a Vec<EndpointDef>, id: &Id) -> (r: Option<&'a EndpointDef>)
    ensures
        match def_position(defs_view(defs@), id@) {
            Some(k) => r matches Some(d) && d@ == defs@[k]@,
            None => r is None,
        },
{
    proof {
        lemma_first_index(def_ids(defs_view(defs@)), id@);
    }
    let mut i: usize = 0;
    while i < defs.len()
        invariant
            i <= defs.len(),
            forall|j: int| 0 <= j < i ==> defs@[j].id@ != id@,
        decreases defs.len() - i,
    {
        if defs[i].id.same(id) {
            proof {
                assert(def_ids(defs_view(defs@))[i as int] == id@);
                lemma_first_index_unique(def_ids(defs_view(defs@)), id@, i as int);
            }
            return Some(&defs[i]);
        }
        i += 1;
    }
    None
}

impl SoftwareSystem {
    /// The endpoint definition with this id on the system.
    pub fn endpoint(&self, id: &Id) -> (r: Option<&EndpointDef>)
        ensures
            match def_position(self@.endpoints, id@) {
                Some(k) => r matches Some(d) && d@ == self@.endpoints[k],
                None => r is None,
            },
    {
        proof {
            lemma_first_index(def_ids(self@.endpoints), id@);
        }
        find_def(&self.endpoints, id)
    }
}

/// A running service: Redis, Consul, an order API. C4's `Container`.
#[derive(Debug, Clone, PartialEq, Eq)]
pub struct Container {
    pub id: Id,
    pub slug: String,
    pub name: String,
    pub system: Id,
    pub endpoints: Vec<EndpointDef>,
    pub memo: String,
}

pub struct ContainerView {
    pub id: Seq<char>,
    pub slug: Seq<char>,
    pub name: Seq<char>,
    pub system: Seq<char>,
    pub endpoints: Seq<EndpointDefView>,
    pub memo: Seq<char>,
}

impl View for Container {
    type V = ContainerView;

    open spec fn view(&self) -> ContainerView {
        ContainerView {
            id: self.id@,
            slug: self.slug@,
            name: self.name@,
            system: self.system@,
            endpoints: defs_view(self.endpoints@),
            memo: self.memo@,
        }
    }
}

impl Container {
    /// The endpoint definition with this id on the service.
    pub fn endpoint(&self, id: &Id) -> (r: Option<&EndpointDef>)
        ensures
            match def_position(self@.endpoints, id@) {
                Some(k) => r matches Some(d) && d@ == self@.endpoints[k],
                None => r is None,
            },
    {
        proof {
            lemma_first_index(def_ids(self@.endpoints), id@);
        }
        find_def(&self.endpoints, id)
    }
}

/// One end of a logical relationship.
#[derive(Debug, Clone, PartialEq, Eq)]
pub enum RelationshipEnd {
    Container(Id),
    System(Id),
    /// A person. Only meaningful as the source.
    Person(Id),
}

pub enum RelationshipEndView {
    Container(Seq<char>),
    System(Seq<char>),
    Person(Seq<char>),
}

impl View for RelationshipEnd {
    type V = RelationshipEndView;

    open spec fn view(&self) -> RelationshipEndView {
        match self {
            RelationshipEnd::Container(id) => RelationshipEndView::Container(id@),
            RelationshipEnd::System(id) => RelationshipEndView::System(id@),
            RelationshipEnd::Person(id) => RelationshipEndView::Person(id@),
        }
    }
}

/// A logical connection: "A must reach this endpoint of B", with its purpose.
/// This is the contract that every environment has to realize.
#[derive(Debug, Clone, PartialEq, Eq)]
pub struct Relationship {
    pub id: Id,
    pub slug: String,
    /// What it is for. A blank purpose raises L007.
    pub purpose: String,
    pub from: RelationshipEnd,
    pub to: RelationshipEnd,
    pub to_endpoint: Id,
    pub memo: String,
}

pub struct RelationshipView {
    pub id: Seq<char>,
    pub slug: Seq<char>,
    pub purpose: Seq<char>,
    pub from: RelationshipEndView,
    pub to: RelationshipEndView,
    pub to_endpoint: Seq<char>,
    pub memo: Seq<char>,
}

impl View for Relationship {
    type V = RelationshipView;

    open spec fn view(&self) -> RelationshipView {
        RelationshipView {
            id: self.id@,
            slug: self.slug@,
            purpose: self.purpose@,
            from: self.from@,
            to: self.to@,
            to_endpoint: self.to_endpoint@,
            memo: self.memo@,
        }
    }
}

/// The whole logical layer.
#[derive(Debug, Clone, PartialEq, Eq)]
pub struct Logical {
    pub people: Vec<Person>,
    pub systems: Vec<SoftwareSystem>,
    pub containers: Vec<Container>,
    pub relationships: Vec<Relationship>,
}

pub struct LogicalView {
    pub people: Seq<PersonView>,
    pub systems: Seq<SoftwareSystemView>,
    pub containers: Seq<ContainerView>,
    pub relationships: Seq<RelationshipView>,
}

impl View for Logical {
    type V = LogicalView;

    open spec fn view(&self) -> LogicalView {
        LogicalView {
            people: self.people@.map_values(|p: Person| p@),
            systems: self.systems@.map_values(|s: SoftwareSystem| s@),
            containers: self.containers@.map_values(|c: Container| c@),
            relationships: self.relationships@.map_values(|r: Relationship| r@),
        }
    }
}

impl Default for Logical {
    fn default() -> (r: Logical)
        ensures
            r@.people.len() == 0,
            r@.systems.len() == 0,
            r@.containers.len() == 0,
            r@.relationships.len() == 0,
    {
        Logical { people: Vec::new(), systems: Vec::new(), containers: Vec::new(), relationships: Vec::new() }
    }
}

/// The external systems of the logical layer, in order.
pub open spec fn external_of(l: LogicalView) -> Seq<SoftwareSystemView> {
    l.systems.filter(|s: SoftwareSystemView| s.external)
}

/// Index of the first element of `ids` equal to `id`.
pub open spec fn first_index(ids: Seq<Seq<char>>, id: Seq<char>) -> Option<int>
    decreases ids.len(),
{
    if ids.len() == 0 {
        None
    } else if ids[0] == id {
        Some(0)
    } else {
        match first_index(ids.drop_first(), id) {
            Some(k) => Some(k + 1),
            None => None,
        }
    }
}

pub proof fn lemma_first_index(ids: Seq<Seq<char>>, id: Seq<char>)
    ensures
        match first_index(ids, id) {
            Some(k) => 0 <= k < ids.len() && ids[k] == id && forall|j: int| 0 <= j < k ==> ids[j] != id,
            None => forall|j: int| 0 <= j < ids.len() ==> ids[j] != id,
        },
    decreases ids.len(),
{
    if ids.len() > 0 {
        lemma_first_index(ids.drop_first(), id);
        if ids[0] != id {
            assert forall|j: int| 1 <= j < ids.len() implies ids[j] == ids.drop_first()[j - 1] by {}
        }
    }
}

/// Index of the first element of `s` that satisfies `p`.
pub open spec fn first_match<A>(s: Seq<A>, p: spec_fn(A) -> bool) -> Option<int>
    decreases s.len(),
{
    if s.len() == 0 {
        None
    } else if p(s[0]) {
        Some(0)
    } else {
        match first_match(s.drop_first(), p) {
            Some(k) => Some(k + 1),
            None => None,
        }
    }
}

pub proof fn lemma_first_match<A>(s: Seq<A>, p: spec_fn(A) -> bool)
    ensures
        match first_match(s, p) {
            Some(k) => 0 <= k < s.len() && p(s[k]) && forall|j: int| 0 <= j < k ==> !p(#[trigger] s[j]),
            None => forall|j: int| 0 <= j < s.len() ==> !p(#[trigger] s[j]),
        },
    decreases s.len(),
{
    if s.len() > 0 {
        lemma_first_match(s.drop_first(), p);
        if !p(s[0]) {
            assert forall|j: int| 1 <= j < s.len() implies s[j] == s.drop_first()[j - 1] by {}
        }
    }
}

pub proof fn lemma_first_match_unique<A>(s: Seq<A>, p: spec_fn(A) -> bool, k: int)
    requires
        0 <= k < s.len(),
        p(s[k]),
        forall|j: int| 0 <= j < k ==> !p(#[trigger] s[j]),
    ensures
        first_match(s, p) == Some(k),
{
    lemma_first_match(s, p);
    match first_match(s, p) {
        Some(m) => {
            if m < k {
                assert(!p(s[m]));
            }
            if k < m {
                assert(!p(s[k]));
            }
        },
        None => {
            assert(!p(s[k]));
        },
    }
}

/// There is a first index exactly when the id occurs.
pub proof fn lemma_first_index_contains(ids: Seq<Seq<char>>, id: Seq<char>)
    ensures
        first_index(ids, id) is Some <==> ids.contains(id),
{
    lemma_first_index(ids, id);
    if ids.contains(id) {
        let j = choose|j: int| 0 <= j < ids.len() && ids[j] == id;
        assert(ids[j] == id);
    }
}

/// The index of the first element whose id is `id`, characterised without recursion.
pub open spec fn is_first_with(ids: Seq<Seq<char>>, id: Seq<char>, k: int) -> bool {
    0 <= k < ids.len() && ids[k] == id && forall|j: int| 0 <= j < k ==> ids[j] != id
}

pub proof fn lemma_first_index_unique(ids: Seq<Seq<char>>, id: Seq<char>, k: int)
    requires
        is_first_with(ids, id, k),
    ensures
        first_index(ids, id) == Some(k),
{
    lemma_first_index(ids, id);
    match first_index(ids, id) {
        Some(m) => {
            if m < k {
                assert(ids[m] != id);
            }
            if k < m {
                assert(ids[k] != id);
            }
        },
        None => {
            assert(ids[k] != id);
        },
    }
}

pub open spec fn container_ids(l: LogicalView) -> Seq<Seq<char>> {
    l.containers.map_values(|c: ContainerView| c.id)
}

pub open spec fn relationship_ids(l: LogicalView) -> Seq<Seq<char>> {
    l.relationships.map_values(|r: RelationshipView| r.id)
}

pub open spec fn system_ids(l: LogicalView) -> Seq<Seq<char>> {
    l.systems.map_values(|s: SoftwareSystemView| s.id)
}

pub open spec fn person_ids(l: LogicalView) -> Seq<Seq<char>> {
    l.people.map_values(|p: PersonView| p.id)
}

impl Logical {
    /// The service with this id (the first one, should the id repeat).
    pub fn container(&self, id: &Id) -> (r: Option<&Container>)
        ensures
            match first_index(container_ids(self@), id@) {
                Some(k) => r matches Some(c) && c@ == self@.containers[k],
                None => r is None,
            },
    {
        proof {
            lemma_first_index(container_ids(self@), id@);
        }
        let mut i: usize = 0;
        while i < self.containers.len()
            invariant
                i <= self.containers.len(),
                forall|j: int| 0 <= j < i ==> self.containers@[j].id@ != id@,
            decreases self.containers.len() - i,
        {
            if self.containers[i].id.same(id) {
                proof {
                    assert(container_ids(self@)[i as int] == id@);
                    lemma_first_index_unique(container_ids(self@), id@, i as int);
                }
                return Some(&self.containers[i]);
            }
            i += 1;
        }
        None
    }

    /// The relationship with this id.
    pub fn relationship(&self, id: &Id) -> (r: Option<&Relationship>)
        ensures
            match first_index(relationship_ids(self@), id@) {
                Some(k) => r matches Some(x) && x@ == self@.relationships[k],
                None => r is None,
            },
    {
        proof {
            lemma_first_index(relationship_ids(self@), id@);
        }
        let mut i: usize = 0;
        while i < self.relationships.len()
            invariant
                i <= self.relationships.len(),
                forall|j: int| 0 <= j < i ==> self.relationships@[j].id@ != id@,
            decreases self.relationships.len() - i,
        {
            if self.relationships[i].id.same(id) {
                proof {
                    assert(relationship_ids(self@)[i as int] == id@);
                    lemma_first_index_unique(relationship_ids(self@), id@, i as int);
                }
                return Some(&self.relationships[i]);
            }
            i += 1;
        }
        None
    }

    /// The system with this id.
    pub fn system(&self, id: &Id) -> (r: Option<&SoftwareSystem>)
        ensures
            match first_index(system_ids(self@), id@) {
                Some(k) => r matches Some(x) && x@ == self@.systems[k],
                None => r is None,
            },
    {
        proof {
            lemma_first_index(system_ids(self@), id@);
        }
        let mut i: usize = 0;
        while i < self.systems.len()
            invariant
                i <= self.systems.len(),
                forall|j: int| 0 <= j < i ==> self.systems@[j].id@ != id@,
            decreases self.systems.len() - i,
        {
            if self.systems[i].id.same(id) {
                proof {
                    assert(system_ids(self@)[i as int] == id@);
                    lemma_first_index_unique(system_ids(self@), id@, i as int);
                }
                return Some(&self.systems[i]);
            }
            i += 1;
        }
        None
    }

    /// External systems, which every environment must realize, in order.
    pub fn external_systems(&self) -> (r: Vec<&SoftwareSystem>)
        ensures
            r@.map_values(|s: &SoftwareSystem| s@) == external_of(self@),
    {
        let mut out: Vec<&SoftwareSystem> = Vec::new();
        let mut i: usize = 0;
        while i < self.systems.len()
            invariant
                i <= self.systems.len(),
                out@.map_values(|s: &SoftwareSystem| s@) == self@.systems.take(i as int).filter(
                    |s: SoftwareSystemView| s.external,
                ),
            decreases self.systems.len() - i,
        {
            proof {
                let f = |s: SoftwareSystemView| s.external;
                assert(self@.systems.take(i + 1).drop_last() =~= self@.systems.take(i as int));
                reveal(Seq::filter);
            }
            if self.systems[i].external {
                out.push(&self.systems[i]);
            }
            proof {
                assert(out@.map_values(|s: &SoftwareSystem| s@) =~= self@.systems.take(i + 1).filter(
                    |s: SoftwareSystemView| s.external,
                ));
            }
            i += 1;
        }
        assert(self@.systems.take(self.systems.len() as int) =~= self@.systems);
        out
    }
}

} // verus!
