//! Edits: one change to a project.
//!
//! One enum rather than a pile of setters: the undo history (see [`crate::history`])
//! wraps the single entry point [`apply`], so no change can slip past it. The first
//! edits are the fixes of what lint complains about: L004 and L005 are fixed by
//! [`Edit::SetExpect`], L006 by [`Edit::SetAddress`], L007 by [`Edit::SetPurpose`], L008
//! by [`Edit::SetStandalone`]; [`fix_for`] holds that mapping. An edit whose target is
//! missing fails: "pressed and nothing happened" is the worst failure for this tool.

use vstd::prelude::*;
use crate::{Project, ProjectView, environment_ids};
use crate::logical::{Relationship, RelationshipView};
use crate::duplicate::{Duplicate, views};
use crate::environment::{Connection, ConnectionEnd, ConnectionKind, ConnectionView, DeploymentNodeView, EndpointView,
    Endpointing, EndpointingView, Environment, EnvironmentView, InfrastructureNodeView, InstanceRef, InstanceRefView,
    SoftwareSystemInstance, SoftwareSystemInstanceView, copy_opt_id, system_instance_ids, copy_opt_text, nodes_view, opt_id_view, opt_text_view};
use crate::id::Id;
use crate::keyed::{find_key, keys, not_key, retain_key};
use crate::logical::{first_index, first_match, lemma_first_index, lemma_first_index_contains, lemma_first_match,
    lemma_first_match_unique};
use crate::text::{concat2, concat3, trim_spec, trimmed};
use crate::tree::{forest_apply, forest_op, set_address_in, set_address_step, set_endpoint_address, standalone_step};
use crate::lint::{Finding, FindingView, Rule, rule_code, findings_view, findings_without, lint, lint_raw, strictly_increasing};
use crate::resource::{Verb, env_of, resource_kind_name, resource_label_noun, verb_label};
use crate::index::{EnvIndex, matching};
use crate::environment::{Endpoint, env_instances, instance_refs_view, endpoints_view};
use crate::resource::{Resource, ResourceView, add_spec, delete_spec, project_outcome, update_spec, with_environments,
    with_logical, with_relationships};

verus! {

/// One change to a project.
#[derive(Debug, PartialEq, Eq)]
pub enum Edit {
    /// L006: set (or, with `None`, clear) the address of an endpoint, wherever it
    /// hangs: on an instance, a device or an external-system landing.
    SetAddress { environment: Id, endpoint: Id, address: Option<String> },
    /// L007: fill in a purpose. Without an environment it is a relationship's.
    SetPurpose { environment: Option<Id>, subject: Id, purpose: String },
    /// L004 and L005: the expected count of a wildcard end.
    SetExpect { environment: Id, connection: Id, side: ConnectionEnd, expect: Option<u32> },
    /// L008: mark an instance or landing as deliberately alone (a cold standby).
    SetStandalone { environment: Id, subject: Id, standalone: bool },
    /// Make a connection the usual path or a fallback.
    SetConnectionKind { environment: Id, connection: Id, kind: ConnectionKind },
    /// L001 and L002: add a connection. Its id is given out beforehand, so applying is
    /// deterministic and undo and redo replay the same connection.
    AddConnection {
        environment: Id,
        id: Id,
        serves: Id,
        purpose: String,
        kind: ConnectionKind,
        from: Endpointing,
        to: Endpointing,
    },
    /// Remove a connection.
    DeleteConnection { environment: Id, connection: Id },
    /// Add a model element.
    AddResource(Resource),
    /// Change a model element.
    UpdateResource(Resource),
    /// Delete a model element. What pointed at it is left dangling, for L012 to name.
    DeleteResource(Resource),
    /// Several edits as one: all of them, in order, or none.
    Batch(Vec<Edit>),
}

pub enum EditView {
    SetAddress { environment: Seq<char>, endpoint: Seq<char>, address: Option<Seq<char>> },
    SetPurpose { environment: Option<Seq<char>>, subject: Seq<char>, purpose: Seq<char> },
    SetExpect { environment: Seq<char>, connection: Seq<char>, side: ConnectionEnd, expect: Option<u32> },
    SetStandalone { environment: Seq<char>, subject: Seq<char>, standalone: bool },
    SetConnectionKind { environment: Seq<char>, connection: Seq<char>, kind: ConnectionKind },
    AddConnection {
        environment: Seq<char>,
        id: Seq<char>,
        serves: Seq<char>,
        purpose: Seq<char>,
        kind: ConnectionKind,
        from: EndpointingView,
        to: EndpointingView,
    },
    DeleteConnection { environment: Seq<char>, connection: Seq<char> },
    AddResource(ResourceView),
    UpdateResource(ResourceView),
    DeleteResource(ResourceView),
    Batch(Seq<EditView>),
}

pub open spec fn edit_view(e: Edit) -> EditView
    decreases e,
{
    match e {
        Edit::SetAddress { environment, endpoint, address } => EditView::SetAddress {
            environment: environment@,
            endpoint: endpoint@,
            address: opt_text_view(address),
        },
        Edit::SetPurpose { environment, subject, purpose } => EditView::SetPurpose {
            environment: opt_id_view(environment),
            subject: subject@,
            purpose: purpose@,
        },
        Edit::SetExpect { environment, connection, side, expect } => EditView::SetExpect {
            environment: environment@,
            connection: connection@,
            side,
            expect,
        },
        Edit::SetStandalone { environment, subject, standalone } => EditView::SetStandalone {
            environment: environment@,
            subject: subject@,
            standalone,
        },
        Edit::SetConnectionKind { environment, connection, kind } => EditView::SetConnectionKind {
            environment: environment@,
            connection: connection@,
            kind,
        },
        Edit::AddConnection { environment, id, serves, purpose, kind, from, to } => EditView::AddConnection {
            environment: environment@,
            id: id@,
            serves: serves@,
            purpose: purpose@,
            kind,
            from: from@,
            to: to@,
        },
        Edit::DeleteConnection { environment, connection } => EditView::DeleteConnection {
            environment: environment@,
            connection: connection@,
        },
        Edit::AddResource(r) => EditView::AddResource(r@),
        Edit::UpdateResource(r) => EditView::UpdateResource(r@),
        Edit::DeleteResource(r) => EditView::DeleteResource(r@),
        Edit::Batch(v) => EditView::Batch(
            Seq::new(
                v@.len(),
                |i: int|
                    if 0 <= i < v@.len() {
                        edit_view(v@[i])
                    } else {
                        EditView::Batch(seq![])
                    },
            ),
        ),
    }
}

impl View for Edit {
    type V = EditView;

    open spec fn view(&self) -> EditView {
        edit_view(*self)
    }
}

pub proof fn lemma_batch_view(v: Vec<Edit>)
    ensures
        Edit::Batch(v)@ == EditView::Batch(v@.map_values(|e: Edit| e@)),
{
    let t = edit_view(Edit::Batch(v))->Batch_0;
    assert(t.len() == v@.len());
    assert forall|i: int| 0 <= i < t.len() implies t[i] == v@[i]@ by {}
    assert(t =~= v@.map_values(|e: Edit| e@));
}

impl Edit {
    /// A copy of this edit, batches included.
    pub fn copy(&self) -> (r: Edit)
        ensures
            r@ == self@,
        decreases self@,
    {
        match self {
            Edit::SetAddress { environment, endpoint, address } => Edit::SetAddress {
                environment: environment.copy(),
                endpoint: endpoint.copy(),
                address: copy_opt_text(address),
            },
            Edit::SetPurpose { environment, subject, purpose } => Edit::SetPurpose {
                environment: copy_opt_id(environment),
                subject: subject.copy(),
                purpose: purpose.clone(),
            },
            Edit::SetExpect { environment, connection, side, expect } => Edit::SetExpect {
                environment: environment.copy(),
                connection: connection.copy(),
                side: *side,
                expect: *expect,
            },
            Edit::SetStandalone { environment, subject, standalone } => Edit::SetStandalone {
                environment: environment.copy(),
                subject: subject.copy(),
                standalone: *standalone,
            },
            Edit::SetConnectionKind { environment, connection, kind } => Edit::SetConnectionKind {
                environment: environment.copy(),
                connection: connection.copy(),
                kind: *kind,
            },
            Edit::AddConnection { environment, id, serves, purpose, kind, from, to } => Edit::AddConnection {
                environment: environment.copy(),
                id: id.copy(),
                serves: serves.copy(),
                purpose: purpose.clone(),
                kind: *kind,
                from: from.duplicate(),
                to: to.duplicate(),
            },
            Edit::DeleteConnection { environment, connection } => Edit::DeleteConnection {
                environment: environment.copy(),
                connection: connection.copy(),
            },
            Edit::AddResource(r) => Edit::AddResource(r.duplicate()),
            Edit::UpdateResource(r) => Edit::UpdateResource(r.duplicate()),
            Edit::DeleteResource(r) => Edit::DeleteResource(r.duplicate()),
            Edit::Batch(v) => {
                let mut out: Vec<Edit> = Vec::new();
                let mut i: usize = 0;
                while i < v.len()
                    invariant
                        i <= v@.len(),
                        *self == Edit::Batch(*v),
                        out@.len() == i,
                        forall|j: int| 0 <= j < i ==> (#[trigger] out@[j])@ == v@[j]@,
                    decreases v.len() - i,
                {
                    proof {
                        lemma_batch_view(*v);
                        assert(self@->Batch_0[i as int] == v@[i as int]@);
                    }
                    let e = v[i].copy();
                    out.push(e);
                    i += 1;
                }
                proof {
                    lemma_batch_view(out);
                    lemma_batch_view(*v);
                    assert(out@.map_values(|e: Edit| e@) =~= v@.map_values(|e: Edit| e@));
                }
                Edit::Batch(out)
            },
        }
    }
}

impl Clone for Edit {
    fn clone(&self) -> Self {
        self.copy()
    }
}

#[derive(Debug, Clone, PartialEq, Eq)]
pub enum EditError {
    NoSuchEnvironment(Id),
    NoSuchEndpoint(Id),
    NoSuchConnection(Id),
    NoSuchRelationship(Id),
    NoSuchSubject(Id),
    /// An expected count set on an end that names a single instance.
    NotAPattern { connection: Id, side: ConnectionEnd },
    /// The rule has no fix by filling in one field.
    NoFix(Rule),
    /// Something with this id is already there.
    AlreadyExists(Id),
    /// An element of this kind was given an empty name.
    EmptySlug(&'static str),
    /// Another element of this kind already has this name.
    SlugTaken { kind: &'static str, slug: String },
}

pub enum EditErrorView {
    NoSuchEnvironment(Seq<char>),
    NoSuchEndpoint(Seq<char>),
    NoSuchConnection(Seq<char>),
    NoSuchRelationship(Seq<char>),
    NoSuchSubject(Seq<char>),
    NotAPattern { connection: Seq<char>, side: ConnectionEnd },
    NoFix(Rule),
    AlreadyExists(Seq<char>),
    EmptySlug(Seq<char>),
    SlugTaken { kind: Seq<char>, slug: Seq<char> },
}

impl View for EditError {
    type V = EditErrorView;

    open spec fn view(&self) -> EditErrorView {
        match self {
            EditError::NoSuchEnvironment(id) => EditErrorView::NoSuchEnvironment(id@),
            EditError::NoSuchEndpoint(id) => EditErrorView::NoSuchEndpoint(id@),
            EditError::NoSuchConnection(id) => EditErrorView::NoSuchConnection(id@),
            EditError::NoSuchRelationship(id) => EditErrorView::NoSuchRelationship(id@),
            EditError::NoSuchSubject(id) => EditErrorView::NoSuchSubject(id@),
            EditError::NotAPattern { connection, side } => EditErrorView::NotAPattern { connection: connection@, side: *side },
            EditError::NoFix(rule) => EditErrorView::NoFix(*rule),
            EditError::AlreadyExists(id) => EditErrorView::AlreadyExists(id@),
            EditError::EmptySlug(kind) => EditErrorView::EmptySlug(kind@),
            EditError::SlugTaken { kind, slug } => EditErrorView::SlugTaken { kind: kind@, slug: slug@ },
        }
    }
}

pub open spec fn side_label(side: ConnectionEnd) -> Seq<char> {
    match side {
        ConnectionEnd::From => "來源"@,
        ConnectionEnd::To => "目標"@,
    }
}

/// The message shown to people for a refused edit.
pub open spec fn edit_error_text(e: EditErrorView) -> Seq<char> {
    match e {
        EditErrorView::NoSuchEnvironment(id) => "找不到環境 "@ + id,
        EditErrorView::NoSuchEndpoint(id) => "找不到 Endpoint "@ + id,
        EditErrorView::NoSuchConnection(id) => "找不到連線 "@ + id,
        EditErrorView::NoSuchRelationship(id) => "找不到邏輯連線 "@ + id,
        EditErrorView::NoSuchSubject(id) => "找不到 "@ + id,
        EditErrorView::NotAPattern { connection, side } => "連線 "@ + connection + " 的"@ + side_label(side)
            + "端不是萬用字元，沒有期望數量可以設定"@,
        EditErrorView::NoFix(rule) => rule_code(rule) + " 沒有填一格就能解決的修法"@,
        EditErrorView::AlreadyExists(id) => id + " 這條連線已經存在"@,
        EditErrorView::EmptySlug(kind) => kind + "的名稱不能是空的"@,
        EditErrorView::SlugTaken { kind, slug } => kind + " "@ + slug + " 已經有了"@,
    }
}

impl EditError {
    /// The message shown to people.
    pub fn describe(&self) -> (r: String)
        ensures
            r@ == edit_error_text(self@),
    {
        match self {
            EditError::NoSuchEnvironment(id) => concat2("找不到環境 ", id.as_str()),
            EditError::NoSuchEndpoint(id) => concat2("找不到 Endpoint ", id.as_str()),
            EditError::NoSuchConnection(id) => concat2("找不到連線 ", id.as_str()),
            EditError::NoSuchRelationship(id) => concat2("找不到邏輯連線 ", id.as_str()),
            EditError::NoSuchSubject(id) => concat2("找不到 ", id.as_str()),
            EditError::NotAPattern { connection, side } => {
                let mut t = concat3("連線 ", connection.as_str(), " 的");
                t.append(side.label());
                t.append("端不是萬用字元，沒有期望數量可以設定");
                t
            },
            EditError::NoFix(rule) => concat2(rule.code(), " 沒有填一格就能解決的修法"),
            EditError::AlreadyExists(id) => concat2(id.as_str(), " 這條連線已經存在"),
            EditError::EmptySlug(kind) => concat2(kind, "的名稱不能是空的"),
            EditError::SlugTaken { kind, slug } => {
                let mut t = concat3(kind, " ", slug.as_str());
                t.append(" 已經有了");
                t
            },
        }
    }
}

// ---- what an edit does inside one environment ----

/// An address as it is stored: trimmed, and none at all when only blanks were given
/// (else a press of the space bar would silence L006).
pub open spec fn normalized_address(a: Option<Seq<char>>) -> Option<Seq<char>> {
    match a {
        Some(t) => if trim_spec(t).len() == 0 {
            None
        } else {
            Some(trim_spec(t))
        },
        None => None,
    }
}

fn normalize_address(a: &Option<String>) -> (r: Option<String>)
    ensures
        opt_text_view(r) == normalized_address(opt_text_view(*a)),
{
    match a {
        Some(t) => {
            let s = trimmed(t.as_str());
            if s.as_str().is_empty() {
                None
            } else {
                Some(s)
            }
        },
        None => None,
    }
}

pub open spec fn with_nodes(e: EnvironmentView, nodes: Seq<DeploymentNodeView>) -> EnvironmentView {
    EnvironmentView { id: e.id, slug: e.slug, name: e.name, nodes, infra: e.infra, systems: e.systems, connections: e.connections, memo: e.memo }
}

pub open spec fn with_infra(e: EnvironmentView, infra: Seq<InfrastructureNodeView>) -> EnvironmentView {
    EnvironmentView { id: e.id, slug: e.slug, name: e.name, nodes: e.nodes, infra, systems: e.systems, connections: e.connections, memo: e.memo }
}

pub open spec fn with_systems(e: EnvironmentView, systems: Seq<SoftwareSystemInstanceView>) -> EnvironmentView {
    EnvironmentView { id: e.id, slug: e.slug, name: e.name, nodes: e.nodes, infra: e.infra, systems, connections: e.connections, memo: e.memo }
}

pub open spec fn with_connections(e: EnvironmentView, connections: Seq<ConnectionView>) -> EnvironmentView {
    EnvironmentView { id: e.id, slug: e.slug, name: e.name, nodes: e.nodes, infra: e.infra, systems: e.systems, connections, memo: e.memo }
}

pub open spec fn endpoint_in(eps: Seq<EndpointView>, id: Seq<char>) -> bool {
    exists|j: int| 0 <= j < eps.len() && eps[j].id == id
}

pub open spec fn infra_has_endpoint(id: Seq<char>) -> spec_fn(InfrastructureNodeView) -> bool {
    |n: InfrastructureNodeView| endpoint_in(n.endpoints, id)
}

pub open spec fn system_has_endpoint(id: Seq<char>) -> spec_fn(SoftwareSystemInstanceView) -> bool {
    |s: SoftwareSystemInstanceView| endpoint_in(s.endpoints, id)
}

/// The environment with the address set on the first endpoint with this id: under the
/// machines first (depth first), then on the devices, then on the external systems.
pub open spec fn set_address_env(e: EnvironmentView, id: Seq<char>, address: Option<Seq<char>>) -> Option<EnvironmentView> {
    match forest_op(set_address_step(id, address), e.nodes) {
        Some(ns) => Some(with_nodes(e, ns)),
        None => match first_match(e.infra, infra_has_endpoint(id)) {
            Some(k) => Some(with_infra(e, e.infra.update(k, InfrastructureNodeView {
                id: e.infra[k].id,
                slug: e.infra[k].slug,
                endpoints: set_address_in(e.infra[k].endpoints, id, address),
            }))),
            None => match first_match(e.systems, system_has_endpoint(id)) {
                Some(k) => Some(with_systems(e, e.systems.update(k, SoftwareSystemInstanceView {
                    id: e.systems[k].id,
                    slug: e.systems[k].slug,
                    system: e.systems[k].system,
                    endpoints: set_address_in(e.systems[k].endpoints, id, address),
                    standalone: e.systems[k].standalone,
                }))),
                None => None,
            },
        },
    }
}

pub open spec fn connection_ids(cs: Seq<ConnectionView>) -> Seq<Seq<char>> {
    cs.map_values(|c: ConnectionView| c.id)
}

pub open spec fn with_purpose(c: ConnectionView, purpose: Seq<char>) -> ConnectionView {
    ConnectionView { id: c.id, serves: c.serves, purpose, kind: c.kind, from: c.from, to: c.to, memo: c.memo }
}

pub open spec fn with_kind(c: ConnectionView, kind: ConnectionKind) -> ConnectionView {
    ConnectionView { id: c.id, serves: c.serves, purpose: c.purpose, kind, from: c.from, to: c.to, memo: c.memo }
}

pub open spec fn end_of(c: ConnectionView, side: ConnectionEnd) -> EndpointingView {
    match side {
        ConnectionEnd::From => c.from,
        ConnectionEnd::To => c.to,
    }
}

pub open spec fn with_end(c: ConnectionView, side: ConnectionEnd, x: EndpointingView) -> ConnectionView {
    match side {
        ConnectionEnd::From => ConnectionView { id: c.id, serves: c.serves, purpose: c.purpose, kind: c.kind, from: x, to: c.to, memo: c.memo },
        ConnectionEnd::To => ConnectionView { id: c.id, serves: c.serves, purpose: c.purpose, kind: c.kind, from: c.from, to: x, memo: c.memo },
    }
}

/// The end with its expected count set, when it is a wildcard.
pub open spec fn with_expect(x: EndpointingView, expect: Option<u32>) -> Option<EndpointingView> {
    match x {
        EndpointingView::Instance { target: InstanceRefView::Pattern { slug_pattern, within, .. }, endpoint } => Some(
            EndpointingView::Instance { target: InstanceRefView::Pattern { slug_pattern, within, expect }, endpoint },
        ),
        _ => None,
    }
}

pub open spec fn with_system_standalone(s: SoftwareSystemInstanceView, standalone: bool) -> SoftwareSystemInstanceView {
    SoftwareSystemInstanceView { id: s.id, slug: s.slug, system: s.system, endpoints: s.endpoints, standalone }
}

/// The environment an edit works in, for those that work in one.
pub open spec fn edit_environment(e: EditView) -> Option<Seq<char>> {
    match e {
        EditView::SetAddress { environment, .. } => Some(environment),
        EditView::SetPurpose { environment, .. } => environment,
        EditView::SetExpect { environment, .. } => Some(environment),
        EditView::SetStandalone { environment, .. } => Some(environment),
        EditView::SetConnectionKind { environment, .. } => Some(environment),
        EditView::AddConnection { environment, .. } => Some(environment),
        EditView::DeleteConnection { environment, .. } => Some(environment),
        _ => None,
    }
}

pub open spec fn set_purpose_env(e: EnvironmentView, subject: Seq<char>, purpose: Seq<char>) -> Result<EnvironmentView, EditErrorView> {
    match first_index(connection_ids(e.connections), subject) {
        Some(k) => Ok(with_connections(e, e.connections.update(k, with_purpose(e.connections[k], trim_spec(purpose))))),
        None => Err(EditErrorView::NoSuchConnection(subject)),
    }
}

pub open spec fn set_expect_env(e: EnvironmentView, connection: Seq<char>, side: ConnectionEnd, expect: Option<u32>) -> Result<EnvironmentView, EditErrorView> {
    match first_index(connection_ids(e.connections), connection) {
        Some(k) => match with_expect(end_of(e.connections[k], side), expect) {
            Some(x) => Ok(with_connections(e, e.connections.update(k, with_end(e.connections[k], side, x)))),
            None => Err(EditErrorView::NotAPattern { connection, side }),
        },
        None => Err(EditErrorView::NoSuchConnection(connection)),
    }
}

pub open spec fn set_standalone_env(e: EnvironmentView, subject: Seq<char>, standalone: bool) -> Result<EnvironmentView, EditErrorView> {
    match forest_op(standalone_step(subject, standalone), e.nodes) {
        Some(ns) => Ok(with_nodes(e, ns)),
        None => match first_index(system_instance_ids(e), subject) {
            Some(k) => Ok(with_systems(e, e.systems.update(k, with_system_standalone(e.systems[k], standalone)))),
            None => Err(EditErrorView::NoSuchSubject(subject)),
        },
    }
}

pub open spec fn set_kind_env(e: EnvironmentView, connection: Seq<char>, kind: ConnectionKind) -> Result<EnvironmentView, EditErrorView> {
    match first_index(connection_ids(e.connections), connection) {
        Some(k) => Ok(with_connections(e, e.connections.update(k, with_kind(e.connections[k], kind)))),
        None => Err(EditErrorView::NoSuchConnection(connection)),
    }
}

pub open spec fn add_connection_env(e: EnvironmentView, c: ConnectionView) -> Result<EnvironmentView, EditErrorView> {
    if connection_ids(e.connections).contains(c.id) {
        Err(EditErrorView::AlreadyExists(c.id))
    } else {
        Ok(with_connections(e, e.connections.push(c)))
    }
}

pub open spec fn delete_connection_env(e: EnvironmentView, connection: Seq<char>) -> Result<EnvironmentView, EditErrorView> {
    if connection_ids(e.connections).contains(connection) {
        Ok(with_connections(e, e.connections.filter(not_key::<Connection>(connection))))
    } else {
        Err(EditErrorView::NoSuchConnection(connection))
    }
}

/// What an edit that works in one environment makes of it.
pub open spec fn env_edit(e: EnvironmentView, edit: EditView) -> Result<EnvironmentView, EditErrorView> {
    match edit {
        EditView::SetAddress { endpoint, address, .. } => match set_address_env(e, endpoint, normalized_address(address)) {
            Some(e2) => Ok(e2),
            None => Err(EditErrorView::NoSuchEndpoint(endpoint)),
        },
        EditView::SetPurpose { subject, purpose, .. } => set_purpose_env(e, subject, purpose),
        EditView::SetExpect { connection, side, expect, .. } => set_expect_env(e, connection, side, expect),
        EditView::SetStandalone { subject, standalone, .. } => set_standalone_env(e, subject, standalone),
        EditView::SetConnectionKind { connection, kind, .. } => set_kind_env(e, connection, kind),
        EditView::AddConnection { id, serves, purpose, kind, from, to, .. } => add_connection_env(e, ConnectionView {
            id,
            serves,
            purpose: trim_spec(purpose),
            kind,
            from,
            to,
            memo: seq![],
        }),
        EditView::DeleteConnection { connection, .. } => delete_connection_env(e, connection),
        _ => Ok(e),
    }
}

proof fn lemma_connection_keys(env: Environment)
    ensures
        views(env.connections@) == env@.connections,
        keys::<Connection>(views(env.connections@)) == connection_ids(env@.connections),
{
    assert(views(env.connections@) =~= env@.connections);
    assert(keys::<Connection>(views(env.connections@)) =~= connection_ids(env@.connections));
}

/// Sets the address of the first endpoint with this id anywhere in the environment.
fn set_address_in_env(env: &mut Environment, id: &Id, address: &Option<String>) -> (r: bool)
    ensures
        match set_address_env(old(env)@, id@, opt_text_view(*address)) {
            Some(e2) => r && final(env)@ == e2,
            None => !r && final(env)@ == old(env)@,
        },
{
    let op = crate::tree::SetAddress { id: id.copy(), address: copy_opt_text(address) };
    let ghost e0 = env@;
    if forest_apply(&op, &mut env.nodes) {
        assert(env@ =~~= with_nodes(e0, env@.nodes));
        return true;
    }
    assert(env@ =~~= e0);
    proof {
        lemma_first_match(e0.infra, infra_has_endpoint(id@));
    }
    let mut k: usize = 0;
    while k < env.infra.len()
        invariant
            k <= env.infra@.len(),
            env@ == e0,
            e0 == old(env)@,
            forest_op(set_address_step(id@, opt_text_view(*address)), e0.nodes) is None,
            forall|j: int| 0 <= j < k ==> !(infra_has_endpoint(id@))(#[trigger] e0.infra[j]),
        decreases env.infra.len() - k,
    {
        let mut n = env.infra[k].duplicate();
        let ghost nv = n@;
        assert(nv == e0.infra[k as int]);
        let ghost before_eps = n.endpoints@;
        let hit = set_endpoint_address(&mut n.endpoints, id, address);
        proof {
            assert(crate::environment::endpoints_view(before_eps) == nv.endpoints);
            if hit {
                let j = choose|j: int| 0 <= j < before_eps.len() && before_eps[j].id@ == id@;
                assert(nv.endpoints[j] == before_eps[j]@);
                assert(nv.endpoints[j].id == id@);
            } else {
                assert forall|j: int| 0 <= j < nv.endpoints.len() implies nv.endpoints[j].id != id@ by {
                    assert(nv.endpoints[j] == before_eps[j]@);
                }
            }
        }
        if hit {
            proof {
                lemma_first_match_unique(e0.infra, infra_has_endpoint(id@), k as int);
            }
            let ghost n2 = n@;
            assert(n2 == InfrastructureNodeView {
                id: e0.infra[k as int].id,
                slug: e0.infra[k as int].slug,
                endpoints: set_address_in(e0.infra[k as int].endpoints, id@, opt_text_view(*address)),
            });
            env.infra.set(k, n);
            proof {
                assert(env@.infra =~= e0.infra.update(k as int, n2));
                assert(env@ =~~= with_infra(e0, e0.infra.update(k as int, n2)));
            }
            return true;
        }
        k += 1;
    }
    proof {
        lemma_first_match(e0.systems, system_has_endpoint(id@));
    }
    let mut k: usize = 0;
    while k < env.systems.len()
        invariant
            k <= env.systems@.len(),
            env@ == e0,
            e0 == old(env)@,
            forest_op(set_address_step(id@, opt_text_view(*address)), e0.nodes) is None,
            first_match(e0.infra, infra_has_endpoint(id@)) is None,
            forall|j: int| 0 <= j < k ==> !(system_has_endpoint(id@))(#[trigger] e0.systems[j]),
        decreases env.systems.len() - k,
    {
        let mut n = env.systems[k].duplicate();
        let ghost nv = n@;
        assert(nv == e0.systems[k as int]);
        let ghost before_eps = n.endpoints@;
        let hit = set_endpoint_address(&mut n.endpoints, id, address);
        proof {
            assert(crate::environment::endpoints_view(before_eps) == nv.endpoints);
            if hit {
                let j = choose|j: int| 0 <= j < before_eps.len() && before_eps[j].id@ == id@;
                assert(nv.endpoints[j] == before_eps[j]@);
                assert(nv.endpoints[j].id == id@);
            } else {
                assert forall|j: int| 0 <= j < nv.endpoints.len() implies nv.endpoints[j].id != id@ by {
                    assert(nv.endpoints[j] == before_eps[j]@);
                }
            }
        }
        if hit {
            proof {
                lemma_first_match_unique(e0.systems, system_has_endpoint(id@), k as int);
            }
            let ghost n2 = n@;
            assert(n2 == SoftwareSystemInstanceView {
                id: e0.systems[k as int].id,
                slug: e0.systems[k as int].slug,
                system: e0.systems[k as int].system,
                endpoints: set_address_in(e0.systems[k as int].endpoints, id@, opt_text_view(*address)),
                standalone: e0.systems[k as int].standalone,
            });
            env.systems.set(k, n);
            proof {
                assert(env@.systems =~= e0.systems.update(k as int, n2));
                assert(env@ =~~= with_systems(e0, e0.systems.update(k as int, n2)));
            }
            return true;
        }
        k += 1;
    }
    false
}

proof fn lemma_system_keys(env: Environment)
    ensures
        views(env.systems@) == env@.systems,
        keys::<SoftwareSystemInstance>(views(env.systems@)) == system_instance_ids(env@),
{
    assert(views(env.systems@) =~= env@.systems);
    assert(keys::<SoftwareSystemInstance>(views(env.systems@)) =~= system_instance_ids(env@));
}

/// Sets the expected count of a wildcard end; `false` when the end is not a wildcard.
fn set_expect_on(x: &mut Endpointing, expect: Option<u32>) -> (r: bool)
    ensures
        match with_expect(old(x)@, expect) {
            Some(y) => r && final(x)@ == y,
            None => !r && final(x)@ == old(x)@,
        },
{
    let y = match &*x {
        Endpointing::Instance { target: InstanceRef::Pattern { slug_pattern, within, .. }, endpoint } => Some(
            Endpointing::Instance {
                target: InstanceRef::Pattern { slug_pattern: slug_pattern.clone(), within: copy_opt_id(within), expect },
                endpoint: copy_opt_id(endpoint),
            },
        ),
        _ => None,
    };
    match y {
        Some(v) => {
            *x = v;
            true
        },
        None => false,
    }
}

type EnvResult = Result<(), EditError>;

pub open spec fn env_outcome(r: Result<(), EditError>, env0: EnvironmentView, env1: EnvironmentView, spec: Result<EnvironmentView, EditErrorView>) -> bool {
    match spec {
        Ok(e2) => r is Ok && env1 == e2,
        Err(x) => r matches Err(y) && y@ == x,
    }
}

fn env_set_purpose(env: &mut Environment, subject: &Id, purpose: &String) -> (r: EnvResult)
    ensures
        env_outcome(r, old(env)@, final(env)@, set_purpose_env(old(env)@, subject@, purpose@)),
{
    proof {
        lemma_connection_keys(*env);
        lemma_first_index(connection_ids(env@.connections), subject@);
    }
    let ghost e0 = env@;
    match find_key(&env.connections, subject) {
        Some(k) => {
            let mut c = env.connections[k].duplicate();
            c.purpose = trimmed(purpose.as_str());
            let ghost cv = c@;
            env.connections.set(k, c);
            assert(env@.connections =~= e0.connections.update(k as int, cv));
            assert(env@ == with_connections(e0, e0.connections.update(k as int, cv)));
            Ok(())
        },
        None => Err(EditError::NoSuchConnection(subject.copy())),
    }
}

fn env_set_expect(env: &mut Environment, connection: &Id, side: ConnectionEnd, expect: Option<u32>) -> (r: EnvResult)
    ensures
        env_outcome(r, old(env)@, final(env)@, set_expect_env(old(env)@, connection@, side, expect)),
{
    proof {
        lemma_connection_keys(*env);
        lemma_first_index(connection_ids(env@.connections), connection@);
    }
    let ghost e0 = env@;
    match find_key(&env.connections, connection) {
        Some(k) => {
            let mut c = env.connections[k].duplicate();
            let hit = match side {
                ConnectionEnd::From => set_expect_on(&mut c.from, expect),
                ConnectionEnd::To => set_expect_on(&mut c.to, expect),
            };
            if hit {
                let ghost cv = c@;
                env.connections.set(k, c);
                assert(env@.connections =~= e0.connections.update(k as int, cv));
                assert(env@ == with_connections(e0, e0.connections.update(k as int, cv)));
                Ok(())
            } else {
                Err(EditError::NotAPattern { connection: connection.copy(), side })
            }
        },
        None => Err(EditError::NoSuchConnection(connection.copy())),
    }
}

fn env_set_standalone(env: &mut Environment, subject: &Id, standalone: bool) -> (r: EnvResult)
    ensures
        env_outcome(r, old(env)@, final(env)@, set_standalone_env(old(env)@, subject@, standalone)),
{
    let ghost e0 = env@;
    let op = crate::tree::SetStandalone { id: subject.copy(), standalone };
    if forest_apply(&op, &mut env.nodes) {
        assert(env@ =~~= with_nodes(e0, env@.nodes));
        return Ok(());
    }
    assert(env@ =~~= e0);
    proof {
        lemma_system_keys(*env);
        lemma_first_index(system_instance_ids(e0), subject@);
    }
    match find_key(&env.systems, subject) {
        Some(k) => {
            let mut x = env.systems[k].duplicate();
            x.standalone = standalone;
            let ghost xv = x@;
            env.systems.set(k, x);
            assert(env@.systems =~= e0.systems.update(k as int, xv));
            assert(env@ == with_systems(e0, e0.systems.update(k as int, xv)));
            Ok(())
        },
        None => Err(EditError::NoSuchSubject(subject.copy())),
    }
}

fn env_set_kind(env: &mut Environment, connection: &Id, kind: ConnectionKind) -> (r: EnvResult)
    ensures
        env_outcome(r, old(env)@, final(env)@, set_kind_env(old(env)@, connection@, kind)),
{
    proof {
        lemma_connection_keys(*env);
        lemma_first_index(connection_ids(env@.connections), connection@);
    }
    let ghost e0 = env@;
    match find_key(&env.connections, connection) {
        Some(k) => {
            let mut c = env.connections[k].duplicate();
            c.kind = kind;
            let ghost cv = c@;
            env.connections.set(k, c);
            assert(env@.connections =~= e0.connections.update(k as int, cv));
            assert(env@ == with_connections(e0, e0.connections.update(k as int, cv)));
            Ok(())
        },
        None => Err(EditError::NoSuchConnection(connection.copy())),
    }
}

fn env_add_connection(env: &mut Environment, c: Connection) -> (r: EnvResult)
    ensures
        env_outcome(r, old(env)@, final(env)@, add_connection_env(old(env)@, c@)),
{
    proof {
        lemma_connection_keys(*env);
        lemma_first_index_contains(connection_ids(env@.connections), c.id@);
        lemma_first_index(connection_ids(env@.connections), c.id@);
    }
    let ghost e0 = env@;
    if find_key(&env.connections, &c.id).is_some() {
        return Err(EditError::AlreadyExists(c.id.copy()));
    }
    let ghost cv = c@;
    env.connections.push(c);
    assert(env@.connections =~= e0.connections.push(cv));
    assert(env@ == with_connections(e0, e0.connections.push(cv)));
    Ok(())
}

fn env_delete_connection(env: &mut Environment, connection: &Id) -> (r: EnvResult)
    ensures
        env_outcome(r, old(env)@, final(env)@, delete_connection_env(old(env)@, connection@)),
{
    proof {
        lemma_connection_keys(*env);
        lemma_first_index_contains(connection_ids(env@.connections), connection@);
        lemma_first_index(connection_ids(env@.connections), connection@);
    }
    let ghost e0 = env@;
    if find_key(&env.connections, connection).is_none() {
        return Err(EditError::NoSuchConnection(connection.copy()));
    }
    retain_key(&mut env.connections, connection);
    assert(env@.connections =~= e0.connections.filter(not_key::<Connection>(connection@)));
    assert(env@ == with_connections(e0, e0.connections.filter(not_key::<Connection>(connection@))));
    Ok(())
}

/// Applies an edit that works in one environment to that environment.
fn apply_in_environment(env: &mut Environment, edit: &Edit) -> (r: EnvResult)
    requires
        edit_environment(edit@) is Some,
    ensures
        env_outcome(r, old(env)@, final(env)@, env_edit(old(env)@, edit@)),
{
    match edit {
        Edit::SetAddress { endpoint, address, .. } => {
            let a = normalize_address(address);
            if set_address_in_env(env, endpoint, &a) {
                Ok(())
            } else {
                Err(EditError::NoSuchEndpoint(endpoint.copy()))
            }
        },
        Edit::SetPurpose { subject, purpose, .. } => env_set_purpose(env, subject, purpose),
        Edit::SetExpect { connection, side, expect, .. } => env_set_expect(env, connection, *side, *expect),
        Edit::SetStandalone { subject, standalone, .. } => env_set_standalone(env, subject, *standalone),
        Edit::SetConnectionKind { connection, kind, .. } => env_set_kind(env, connection, *kind),
        Edit::AddConnection { id, serves, purpose, kind, from, to, .. } => env_add_connection(
            env,
            Connection {
                id: id.copy(),
                serves: serves.copy(),
                purpose: trimmed(purpose.as_str()),
                kind: *kind,
                from: from.duplicate(),
                to: to.duplicate(),
                memo: String::new(),
            },
        ),
        Edit::DeleteConnection { connection, .. } => env_delete_connection(env, connection),
        _ => Ok(()),
    }
}

// ---- applying an edit to a project ----

pub open spec fn with_rel_purpose(x: RelationshipView, purpose: Seq<char>) -> RelationshipView {
    RelationshipView { id: x.id, slug: x.slug, purpose, from: x.from, to: x.to, to_endpoint: x.to_endpoint, memo: x.memo }
}

/// What applying an edit makes of a project, or why it fails. On failure nothing
/// changes: every edit finds its target before it touches anything.
pub open spec fn apply_spec(p: ProjectView, edit: EditView) -> Result<ProjectView, EditErrorView>
    decreases edit,
{
    match edit {
        EditView::SetPurpose { environment: None, subject, purpose } => match first_index(
            keys::<Relationship>(p.logical.relationships),
            subject,
        ) {
            Some(k) => Ok(with_logical(p, with_relationships(p.logical, p.logical.relationships.update(
                k,
                with_rel_purpose(p.logical.relationships[k], trim_spec(purpose)),
            )))),
            None => Err(EditErrorView::NoSuchRelationship(subject)),
        },
        EditView::AddResource(r) => add_spec(p, r),
        EditView::UpdateResource(r) => update_spec(p, r),
        EditView::DeleteResource(r) => delete_spec(p, r),
        EditView::Batch(s) => batch_spec(p, s),
        _ => match edit_environment(edit) {
            Some(env) => match first_index(environment_ids(p), env) {
                Some(k) => match env_edit(p.environments[k], edit) {
                    Ok(e2) => Ok(with_environments(p, p.environments.update(k, e2))),
                    Err(x) => Err(x),
                },
                None => Err(EditErrorView::NoSuchEnvironment(env)),
            },
            None => Ok(p),
        },
    }
}

/// Several edits in order, each on what the one before left; the first failure is
/// the batch's.
pub open spec fn batch_spec(p: ProjectView, s: Seq<EditView>) -> Result<ProjectView, EditErrorView>
    decreases s,
{
    if s.len() == 0 {
        Ok(p)
    } else {
        match apply_spec(p, s[0]) {
            Ok(q) => batch_spec(q, s.subrange(1, s.len() as int)),
            Err(x) => Err(x),
        }
    }
}

pub proof fn lemma_batch_step(p: ProjectView, s: Seq<EditView>, i: int)
    requires
        0 <= i < s.len(),
    ensures
        batch_spec(p, s.take(i + 1)) == match batch_spec(p, s.take(i)) {
            Ok(q) => apply_spec(q, s[i]),
            Err(x) => Err(x),
        },
    decreases i,
{
    let t = s.subrange(1, s.len() as int);
    assert(s.take(i + 1)[0] == s[0]);
    assert(s.take(i + 1).subrange(1, i + 1) =~= t.take(i));
    if i == 0 {
        assert(t.take(0) =~= Seq::<EditView>::empty());
        assert(s.take(0) =~= Seq::<EditView>::empty());
        match apply_spec(p, s[0]) {
            Ok(q) => {
                assert(batch_spec(q, t.take(0)) == Ok::<ProjectView, EditErrorView>(q));
            },
            Err(x) => {},
        }
    } else {
        assert(s.take(i)[0] == s[0]);
        assert(s.take(i).subrange(1, i) =~= t.take(i - 1));
        assert(t[i - 1] == s[i]);
        match apply_spec(p, s[0]) {
            Ok(q) => {
                lemma_batch_step(q, t, i - 1);
            },
            Err(x) => {},
        }
    }
}

/// Applies an edit. On failure the project is exactly as it was.
pub fn apply(project: &mut Project, edit: &Edit) -> (r: Result<(), EditError>)
    ensures
        project_outcome(r, old(project)@, final(project)@, apply_spec(old(project)@, edit@)),
    decreases edit@,
{
    let ghost p0 = project@;
    match edit {
        Edit::SetPurpose { environment: None, subject, purpose } => {
            assert(views(project.logical.relationships@) =~= p0.logical.relationships);
            proof {
                lemma_first_index(keys::<Relationship>(p0.logical.relationships), subject@);
            }
            match find_key(&project.logical.relationships, subject) {
                Some(k) => {
                    let mut x = project.logical.relationships[k].duplicate();
                    x.purpose = trimmed(purpose.as_str());
                    let ghost xv = x@;
                    project.logical.relationships.set(k, x);
                    assert(project@.logical.relationships =~= p0.logical.relationships.update(k as int, xv));
                    Ok(())
                },
                None => Err(EditError::NoSuchRelationship(subject.copy())),
            }
        },
        Edit::AddResource(r) => crate::resource::add(project, r),
        Edit::UpdateResource(r) => crate::resource::update(project, r),
        Edit::DeleteResource(r) => crate::resource::delete(project, r),
        Edit::Batch(v) => {
            proof {
                lemma_batch_view(*v);
            }
            let ghost s = edit@->Batch_0;
            let mut scratch = project.duplicate();
            let mut i: usize = 0;
            while i < v.len()
                invariant
                    i <= v@.len(),
                    *edit == Edit::Batch(*v),
                    s == edit@->Batch_0,
                    s == v@.map_values(|e: Edit| e@),
                    p0 == old(project)@,
                    *project == *old(project),
                    batch_spec(p0, s.take(i as int)) == Ok::<ProjectView, EditErrorView>(scratch@),
                decreases v.len() - i,
            {
                proof {
                    lemma_batch_step(p0, s, i as int);
                    assert(s[i as int] == v@[i as int]@);
                }
                match apply(&mut scratch, &v[i]) {
                    Ok(()) => {},
                    Err(x) => {
                        proof {
                            lemma_batch_prefix_error(p0, s, i as int + 1);
                        }
                        return Err(x);
                    },
                }
                i += 1;
            }
            assert(s.take(i as int) =~= s);
            *project = scratch;
            Ok(())
        },
        _ => {
            proof {
                lemma_project_environments(*project);
            }
            let env_id = match edit.environment_of() {
                Some(x) => x,
                None => {
                    return Ok(());
                },
            };
            proof {
                lemma_first_index(environment_ids(p0), env_id@);
            }
            match find_key(&project.environments, env_id) {
                Some(k) => {
                    let mut env = project.environments[k].duplicate();
                    apply_in_environment(&mut env, edit)?;
                    let ghost ev = env@;
                    project.environments.set(k, env);
                    assert(project@.environments =~= p0.environments.update(k as int, ev));
                    Ok(())
                },
                None => Err(EditError::NoSuchEnvironment(env_id.copy())),
            }
        },
    }
}

/// Once a prefix of a batch fails, the batch fails with that error.
pub proof fn lemma_batch_prefix_error(p: ProjectView, s: Seq<EditView>, n: int)
    requires
        0 <= n <= s.len(),
        batch_spec(p, s.take(n)) is Err,
    ensures
        batch_spec(p, s) == batch_spec(p, s.take(n)),
    decreases s.len() - n,
{
    if n < s.len() {
        lemma_batch_step(p, s, n);
        lemma_batch_prefix_error(p, s, n + 1);
    } else {
        assert(s.take(n) =~= s);
    }
}

proof fn lemma_project_environments(p: Project)
    ensures
        views(p.environments@) == p@.environments,
        keys::<Environment>(views(p.environments@)) == environment_ids(p@),
{
    assert(views(p.environments@) =~= p@.environments);
    assert(keys::<Environment>(views(p.environments@)) =~= environment_ids(p@));
}

impl Edit {
    /// The environment an edit works in, for those that work in one.
    fn environment_of(&self) -> (r: Option<&Id>)
        ensures
            match edit_environment(self@) {
                Some(x) => r matches Some(y) && y@ == x,
                None => r is None,
            },
    {
        match self {
            Edit::SetAddress { environment, .. } => Some(environment),
            Edit::SetPurpose { environment, .. } => environment.as_ref(),
            Edit::SetExpect { environment, .. } => Some(environment),
            Edit::SetStandalone { environment, .. } => Some(environment),
            Edit::SetConnectionKind { environment, .. } => Some(environment),
            Edit::AddConnection { environment, .. } => Some(environment),
            Edit::DeleteConnection { environment, .. } => Some(environment),
            _ => None,
        }
    }
}

// ---- labels, previews and fixes ----

/// The short label of an edit for the undo menu, such as `填上位址`.
pub open spec fn edit_label(e: EditView) -> Seq<char> {
    match e {
        EditView::SetAddress { .. } => "填上位址"@,
        EditView::SetPurpose { .. } => "修改用途"@,
        EditView::SetExpect { .. } => "修改期望數量"@,
        EditView::SetStandalone { .. } => "標記刻意獨立"@,
        EditView::SetConnectionKind { .. } => "修改連線種類"@,
        EditView::AddConnection { .. } => "新增連線"@,
        EditView::DeleteConnection { .. } => "刪除連線"@,
        EditView::AddResource(r) => verb_label(Verb::Add) + resource_label_noun(r),
        EditView::UpdateResource(r) => verb_label(Verb::Update) + resource_label_noun(r),
        EditView::DeleteResource(r) => verb_label(Verb::Delete) + resource_label_noun(r),
        EditView::Batch(_) => "多項修改"@,
    }
}

impl Edit {
    /// The short label for the undo menu ("undo: 填上位址").
    pub fn label(&self) -> (r: &'static str)
        ensures
            r@ == edit_label(self@),
    {
        let r: &'static str = match self {
            Edit::SetAddress { .. } => "填上位址",
            Edit::SetPurpose { .. } => "修改用途",
            Edit::SetExpect { .. } => "修改期望數量",
            Edit::SetStandalone { .. } => "標記刻意獨立",
            Edit::SetConnectionKind { .. } => "修改連線種類",
            Edit::AddConnection { .. } => "新增連線",
            Edit::DeleteConnection { .. } => "刪除連線",
            Edit::AddResource(x) => x.kind_name_label(Verb::Add),
            Edit::UpdateResource(x) => x.kind_name_label(Verb::Update),
            Edit::DeleteResource(x) => x.kind_name_label(Verb::Delete),
            Edit::Batch(_) => "多項修改",
        };
        proof {
            reveal_strlit("填上位址");
            reveal_strlit("修改用途");
            reveal_strlit("修改期望數量");
            reveal_strlit("標記刻意獨立");
            reveal_strlit("修改連線種類");
            reveal_strlit("新增連線");
            reveal_strlit("刪除連線");
            reveal_strlit("多項修改");
        }
        r
    }
}

/// What an edit would break and what it would fix: the findings of lint after it that
/// were not there before, and those before it that are gone after.
#[derive(Debug)]
pub struct Impact {
    /// New findings; a delete confirmation lists these prominently.
    pub introduced: Vec<Finding>,
    /// Findings that go away.
    pub resolved: Vec<Finding>,
}

impl Impact {
    /// Whether nothing would break.
    pub fn is_safe(&self) -> (r: bool)
        ensures
            r == (self.introduced@.len() == 0),
    {
        self.introduced.len() == 0
    }
}

/// What applying the edit would change in lint's findings; the project itself is not
/// touched (the edit runs on a copy). Lint is the one standard of what is missing, so
/// there is no second analysis to drift away from it.
pub fn preview(project: &Project, edit: &Edit) -> (r: Result<Impact, EditError>)
    ensures
        match apply_spec(project@, edit@) {
            Ok(q) => r matches Ok(imp)
                && strictly_increasing(findings_view(imp.introduced@))
                && findings_view(imp.introduced@).to_set() == lint_raw(q).to_set().difference(lint_raw(project@).to_set())
                && strictly_increasing(findings_view(imp.resolved@))
                && findings_view(imp.resolved@).to_set() == lint_raw(project@).to_set().difference(lint_raw(q).to_set()),
            Err(x) => r matches Err(y) && y@ == x,
        },
{
    let before = lint(project);
    let mut after_project = project.duplicate();
    apply(&mut after_project, edit)?;
    let after = lint(&after_project);
    Ok(Impact { introduced: findings_without(&after, &before), resolved: findings_without(&before, &after) })
}

/// Which control fixes a finding: only what kind of input, not how it looks.
#[derive(Debug, Clone, PartialEq, Eq)]
pub enum Fix {
    /// Type a text (an address, a purpose).
    Text { hint: String, current: Option<String> },
    /// Type a number (an expected count), with the actual count as a suggestion.
    Count { suggestion: Option<u32> },
    /// A switch (standalone).
    Toggle { label: String },
    /// Open the "add a connection" form for this relationship. Not one field, but a fix.
    AddConnection { relationship: Id },
}

pub enum FixView {
    Text { hint: Seq<char>, current: Option<Seq<char>> },
    Count { suggestion: Option<u32> },
    Toggle { label: Seq<char> },
    AddConnection { relationship: Seq<char> },
}

impl View for Fix {
    type V = FixView;

    open spec fn view(&self) -> FixView {
        match self {
            Fix::Text { hint, current } => FixView::Text { hint: hint@, current: opt_text_view(*current) },
            Fix::Count { suggestion } => FixView::Count { suggestion: *suggestion },
            Fix::Toggle { label } => FixView::Toggle { label: label@ },
            Fix::AddConnection { relationship } => FixView::AddConnection { relationship: relationship@ },
        }
    }
}

/// What the user typed into a [`Fix`] control.
#[derive(Debug, Clone, PartialEq, Eq)]
pub enum FixValue {
    Text(String),
    Count(Option<u32>),
    Toggle(bool),
}

pub enum FixValueView {
    Text(Seq<char>),
    Count(Option<u32>),
    Toggle(bool),
}

impl View for FixValue {
    type V = FixValueView;

    open spec fn view(&self) -> FixValueView {
        match self {
            FixValue::Text(t) => FixValueView::Text(t@),
            FixValue::Count(c) => FixValueView::Count(*c),
            FixValue::Toggle(b) => FixValueView::Toggle(*b),
        }
    }
}

/// The environment a finding names, or the error for one that names none.
pub open spec fn finding_environment(f: FindingView) -> Result<Seq<char>, EditErrorView> {
    match f.environment {
        Some(env) => Ok(env),
        None => Err(EditErrorView::NoSuchEnvironment("(未指定)"@)),
    }
}

/// The edit that a finding and a typed value make. The end of a wildcard is the one
/// the finding names, never a guess (both ends can be wildcards).
pub open spec fn edit_for_spec(f: FindingView, v: FixValueView) -> Result<EditView, EditErrorView> {
    match (f.rule, v) {
        (Rule::L006, FixValueView::Text(t)) => match finding_environment(f) {
            Ok(env) => Ok(EditView::SetAddress { environment: env, endpoint: f.subject, address: Some(t) }),
            Err(x) => Err(x),
        },
        (Rule::L007, FixValueView::Text(t)) => Ok(EditView::SetPurpose { environment: f.environment, subject: f.subject, purpose: t }),
        (Rule::L004, FixValueView::Count(c)) | (Rule::L005, FixValueView::Count(c)) => match finding_environment(f) {
            Ok(env) => match f.end {
                Some(side) => Ok(EditView::SetExpect { environment: env, connection: f.subject, side, expect: c }),
                None => Err(EditErrorView::NoFix(f.rule)),
            },
            Err(x) => Err(x),
        },
        (Rule::L008, FixValueView::Toggle(on)) => match finding_environment(f) {
            Ok(env) => Ok(EditView::SetStandalone { environment: env, subject: f.subject, standalone: on }),
            Err(x) => Err(x),
        },
        _ => Err(EditErrorView::NoFix(f.rule)),
    }
}

fn finding_env(f: &Finding) -> (r: Result<Id, EditError>)
    ensures
        match finding_environment(f@) {
            Ok(env) => r matches Ok(x) && x@ == env,
            Err(e) => r matches Err(y) && y@ == e,
        },
{
    match &f.environment {
        Some(env) => Ok(env.copy()),
        None => {
            let none = Id::new("(未指定)");
            Err(EditError::NoSuchEnvironment(none))
        },
    }
}

/// Turns a finding and what the user typed into an edit, so that no caller needs to
/// know which field a rule's answer goes to.
pub fn edit_for(finding: &Finding, value: &FixValue) -> (r: Result<Edit, EditError>)
    ensures
        match edit_for_spec(finding@, value@) {
            Ok(e) => r matches Ok(x) && x@ == e,
            Err(e) => r matches Err(y) && y@ == e,
        },
{
    match (finding.rule, value) {
        (Rule::L006, FixValue::Text(text)) => {
            let environment = finding_env(finding)?;
            Ok(Edit::SetAddress { environment, endpoint: finding.subject.copy(), address: Some(text.clone()) })
        },
        (Rule::L007, FixValue::Text(text)) => Ok(Edit::SetPurpose {
            environment: copy_opt_id(&finding.environment),
            subject: finding.subject.copy(),
            purpose: text.clone(),
        }),
        (Rule::L004, FixValue::Count(count)) | (Rule::L005, FixValue::Count(count)) => {
            let environment = finding_env(finding)?;
            match finding.end {
                Some(side) => Ok(Edit::SetExpect { environment, connection: finding.subject.copy(), side, expect: *count }),
                None => Err(EditError::NoFix(finding.rule)),
            }
        },
        (Rule::L008, FixValue::Toggle(on)) => {
            let environment = finding_env(finding)?;
            Ok(Edit::SetStandalone { environment, subject: finding.subject.copy(), standalone: *on })
        },
        _ => Err(EditError::NoFix(finding.rule)),
    }
}

/// The endpoint lists of a sequence, one after the other.
pub open spec fn joined(s: Seq<Seq<EndpointView>>) -> Seq<EndpointView>
    decreases s.len(),
{
    if s.len() == 0 {
        seq![]
    } else {
        joined(s.drop_last()) + s.last()
    }
}

/// Every endpoint of an environment: on its instances (in tree order), then on its
/// devices, then on its external-system landings.
pub open spec fn env_endpoints(e: EnvironmentView) -> Seq<EndpointView> {
    joined(env_instances(e).map_values(|i: crate::environment::ContainerInstanceView| i.endpoints))
        + joined(e.infra.map_values(|n: InfrastructureNodeView| n.endpoints))
        + joined(e.systems.map_values(|x: SoftwareSystemInstanceView| x.endpoints))
}

/// The address the endpoint has now, if the finding's environment has one with its id.
pub open spec fn current_address(p: ProjectView, f: FindingView) -> Option<Seq<char>> {
    match f.environment {
        Some(env) => match env_of(p, env) {
            Some(e) => match first_match(env_endpoints(e), crate::tree::endpoint_is(f.subject)) {
                Some(k) => env_endpoints(e)[k].address,
                None => None,
            },
            None => None,
        },
        None => None,
    }
}

/// How many instances the wildcard end that the finding names matches now.
pub open spec fn actual_count(p: ProjectView, f: FindingView) -> Option<u32> {
    match f.environment {
        Some(env) => match env_of(p, env) {
            Some(e) => match first_index(connection_ids(e.connections), f.subject) {
                Some(k) => match f.end {
                    Some(side) => match end_of(e.connections[k], side) {
                        EndpointingView::Instance { target: InstanceRefView::Pattern { slug_pattern, within, .. }, .. } => Some(
                            matching(e, slug_pattern, within).len() as u32,
                        ),
                        _ => None,
                    },
                    None => None,
                },
                None => None,
            },
            None => None,
        },
        None => None,
    }
}

/// The fix of a finding. L001 and L002 are fixed by adding a connection when their
/// subject is a relationship (on a service or a system, a machine is missing instead);
/// L003 has none (the wiring of an existing connection must change).
pub open spec fn fix_spec(p: ProjectView, f: FindingView) -> Option<FixView> {
    match f.rule {
        Rule::L006 => Some(FixView::Text { hint: "10.0.1.11:6379"@, current: current_address(p, f) }),
        Rule::L007 => Some(FixView::Text { hint: "這條連線是做什麼用的"@, current: None }),
        Rule::L004 | Rule::L005 => Some(FixView::Count { suggestion: actual_count(p, f) }),
        Rule::L008 => Some(FixView::Toggle { label: "刻意獨立（冷備機等）"@ }),
        Rule::L001 | Rule::L002 => if keys::<Relationship>(p.logical.relationships).contains(f.subject) {
            Some(FixView::AddConnection { relationship: f.subject })
        } else {
            None
        },
        _ => None,
    }
}

fn append_endpoints<'a>(out: &mut Vec<&'a Endpoint>, eps: &'a Vec<Endpoint>)
    ensures
        final(out)@.map_values(|e: &Endpoint| e@) == old(out)@.map_values(|e: &Endpoint| e@) + endpoints_view(eps@),
{
    let ghost o0 = old(out)@.map_values(|e: &Endpoint| e@);
    let mut i: usize = 0;
    while i < eps.len()
        invariant
            i <= eps@.len(),
            o0 == old(out)@.map_values(|e: &Endpoint| e@),
            out@.map_values(|e: &Endpoint| e@) == o0 + endpoints_view(eps@).take(i as int),
        decreases eps.len() - i,
    {
        let ghost before = out@;
        out.push(&eps[i]);
        proof {
            assert(out@.map_values(|e: &Endpoint| e@) =~= before.map_values(|e: &Endpoint| e@).push(eps@[i as int]@));
            assert(endpoints_view(eps@).take(i + 1) =~= endpoints_view(eps@).take(i as int).push(eps@[i as int]@));
            assert(out@.map_values(|e: &Endpoint| e@) =~= o0 + endpoints_view(eps@).take(i + 1));
        }
        i += 1;
    }
    assert(endpoints_view(eps@).take(i as int) =~= endpoints_view(eps@));
}

/// Every endpoint of the environment in the order of [`env_endpoints`].
fn all_endpoints(env: &Environment) -> (r: Vec<&Endpoint>)
    ensures
        r@.map_values(|e: &Endpoint| e@) == env_endpoints(env@),
{
    let mut out: Vec<&Endpoint> = Vec::new();
    let all = env.instances();
    let ghost a = env_instances(env@).map_values(|i: crate::environment::ContainerInstanceView| i.endpoints);
    let mut i: usize = 0;
    assert(out@.map_values(|e: &Endpoint| e@) =~= joined(a.take(0)));
    while i < all.len()
        invariant
            i <= all@.len(),
            instance_refs_view(all@) == env_instances(env@),
            a == env_instances(env@).map_values(|i: crate::environment::ContainerInstanceView| i.endpoints),
            out@.map_values(|e: &Endpoint| e@) == joined(a.take(i as int)),
        decreases all.len() - i,
    {
        append_endpoints(&mut out, &all[i].endpoints);
        proof {
            assert(a.take(i + 1).drop_last() =~= a.take(i as int));
            assert(a[i as int] == all@[i as int]@.endpoints);
        }
        i += 1;
    }
    assert(a.take(i as int) =~= a);
    let ghost mid = out@.map_values(|e: &Endpoint| e@);
    let ghost b = env@.infra.map_values(|n: InfrastructureNodeView| n.endpoints);
    let mut i: usize = 0;
    assert(joined(b.take(0)) =~= Seq::<EndpointView>::empty());
    while i < env.infra.len()
        invariant
            i <= env.infra@.len(),
            b == env@.infra.map_values(|n: InfrastructureNodeView| n.endpoints),
            out@.map_values(|e: &Endpoint| e@) == mid + joined(b.take(i as int)),
        decreases env.infra.len() - i,
    {
        append_endpoints(&mut out, &env.infra[i].endpoints);
        proof {
            assert(b.take(i + 1).drop_last() =~= b.take(i as int));
            assert(b[i as int] == env.infra@[i as int]@.endpoints);
        }
        i += 1;
    }
    assert(b.take(i as int) =~= b);
    let ghost mid2 = out@.map_values(|e: &Endpoint| e@);
    let ghost c = env@.systems.map_values(|x: SoftwareSystemInstanceView| x.endpoints);
    let mut i: usize = 0;
    assert(joined(c.take(0)) =~= Seq::<EndpointView>::empty());
    while i < env.systems.len()
        invariant
            i <= env.systems@.len(),
            c == env@.systems.map_values(|x: SoftwareSystemInstanceView| x.endpoints),
            out@.map_values(|e: &Endpoint| e@) == mid2 + joined(c.take(i as int)),
        decreases env.systems.len() - i,
    {
        append_endpoints(&mut out, &env.systems[i].endpoints);
        proof {
            assert(c.take(i + 1).drop_last() =~= c.take(i as int));
            assert(c[i as int] == env.systems@[i as int]@.endpoints);
        }
        i += 1;
    }
    assert(c.take(i as int) =~= c);
    out
}

fn address_now(project: &Project, finding: &Finding) -> (r: Option<String>)
    ensures
        opt_text_view(r) == current_address(project@, finding@),
{
    let env_id = match &finding.environment {
        Some(x) => x,
        None => {
            return None;
        },
    };
    proof {
        lemma_first_index(environment_ids(project@), env_id@);
    }
    let env = match project.environment(env_id) {
        Some(e) => e,
        None => {
            return None;
        },
    };
    let eps = all_endpoints(env);
    let ghost s = env_endpoints(env@);
    proof {
        lemma_first_match(s, crate::tree::endpoint_is(finding@.subject));
    }
    let mut i: usize = 0;
    while i < eps.len()
        invariant
            i <= eps@.len(),
            eps@.map_values(|e: &Endpoint| e@) == s,
            s == env_endpoints(env@),
            env_of(project@, env_id@) == Some(env@),
            finding@.environment == Some(env_id@),
            forall|j: int| 0 <= j < i ==> !(crate::tree::endpoint_is(finding@.subject))(#[trigger] s[j]),
        decreases eps.len() - i,
    {
        assert(s[i as int] == eps@[i as int]@);
        if eps[i].id.same(&finding.subject) {
            proof {
                lemma_first_match_unique(s, crate::tree::endpoint_is(finding@.subject), i as int);
            }
            return copy_opt_text(&eps[i].address);
        }
        i += 1;
    }
    None
}

fn count_now(project: &Project, finding: &Finding) -> (r: Option<u32>)
    ensures
        r == actual_count(project@, finding@),
{
    let env_id = match &finding.environment {
        Some(x) => x,
        None => {
            return None;
        },
    };
    let env = match project.environment(env_id) {
        Some(e) => e,
        None => {
            return None;
        },
    };
    proof {
        lemma_connection_keys(*env);
        lemma_first_index(connection_ids(env@.connections), finding@.subject);
    }
    let k = match find_key(&env.connections, &finding.subject) {
        Some(k) => k,
        None => {
            return None;
        },
    };
    let side = match finding.end {
        Some(s) => s,
        None => {
            return None;
        },
    };
    let conn = &env.connections[k];
    let end = match side {
        ConnectionEnd::From => &conn.from,
        ConnectionEnd::To => &conn.to,
    };
    match end {
        Endpointing::Instance { target: InstanceRef::Pattern { slug_pattern, within, .. }, .. } => {
            let index = EnvIndex::build(project, env);
            let found = index.matching_within(slug_pattern.as_str(), within.as_ref());
            Some(found.len() as u32)
        },
        _ => None,
    }
}

/// The fix for a finding; `None` when one field cannot fix it.
pub fn fix_for(project: &Project, finding: &Finding) -> (r: Option<Fix>)
    ensures
        match fix_spec(project@, finding@) {
            Some(x) => r matches Some(y) && y@ == x,
            None => r is None,
        },
{
    match finding.rule {
        Rule::L006 => Some(Fix::Text { hint: "10.0.1.11:6379".to_string(), current: address_now(project, finding) }),
        Rule::L007 => Some(Fix::Text { hint: "這條連線是做什麼用的".to_string(), current: None }),
        Rule::L004 | Rule::L005 => Some(Fix::Count { suggestion: count_now(project, finding) }),
        Rule::L008 => Some(Fix::Toggle { label: "刻意獨立（冷備機等）".to_string() }),
        Rule::L001 | Rule::L002 => {
            assert(views(project.logical.relationships@) =~= project@.logical.relationships);
            proof {
                lemma_first_index_contains(keys::<Relationship>(project@.logical.relationships), finding@.subject);
            }
            if find_key(&project.logical.relationships, &finding.subject).is_some() {
                Some(Fix::AddConnection { relationship: finding.subject.copy() })
            } else {
                None
            }
        },
        _ => None,
    }
}

/// Adding the same connection twice fails the second time with `AlreadyExists`: a
/// replayed add (undo, then redo) never makes two alike connections.
pub proof fn lemma_add_connection_once(p: ProjectView, e: EditView)
    requires
        e is AddConnection,
        apply_spec(p, e) is Ok,
    ensures
        apply_spec(apply_spec(p, e)->Ok_0, e) == Err::<ProjectView, EditErrorView>(EditErrorView::AlreadyExists(e->AddConnection_id)),
{
    let env = e->AddConnection_environment;
    let id = e->AddConnection_id;
    lemma_first_index(environment_ids(p), env);
    let k = first_index(environment_ids(p), env)->Some_0;
    let e2 = env_edit(p.environments[k], e)->Ok_0;
    let q = apply_spec(p, e)->Ok_0;
    assert(q == with_environments(p, p.environments.update(k, e2)));
    assert(environment_ids(q) =~= environment_ids(p));
    let cs = e2.connections;
    assert(connection_ids(cs)[cs.len() - 1] == id);
    assert(connection_ids(cs).contains(id));
}


/// Previewing an edit is applying it to a copy and comparing lint before and after:
/// with `before` and `after` what [`lint`] returns on the project and on the edited
/// copy, and `introduced` and `resolved` what [`preview`] returns, the introduced
/// findings are exactly `after` without the findings of `before`, in lint order, and
/// the resolved ones exactly `before` without those of `after`.
pub proof fn lemma_preview_is_lint_difference(p: ProjectView, edit: EditView, before: Seq<FindingView>, after: Seq<FindingView>,
    introduced: Seq<FindingView>, resolved: Seq<FindingView>)
    requires
        apply_spec(p, edit) is Ok,
        strictly_increasing(before),
        before.to_set() == lint_raw(p).to_set(),
        strictly_increasing(after),
        after.to_set() == lint_raw(apply_spec(p, edit)->Ok_0).to_set(),
        strictly_increasing(introduced),
        introduced.to_set() == lint_raw(apply_spec(p, edit)->Ok_0).to_set().difference(lint_raw(p).to_set()),
        strictly_increasing(resolved),
        resolved.to_set() == lint_raw(p).to_set().difference(lint_raw(apply_spec(p, edit)->Ok_0).to_set()),
    ensures
        introduced == after.filter(|f: FindingView| !before.contains(f)),
        resolved == before.filter(|f: FindingView| !after.contains(f)),
{
    let k1 = |f: FindingView| !before.contains(f);
    let k2 = |f: FindingView| !after.contains(f);
    crate::lint::lemma_filter_sorted(after, k1);
    crate::lint::lemma_filter_members(after, k1);
    assert(after.filter(k1).to_set() =~= introduced.to_set());
    crate::lint::lemma_sorted_unique(introduced, after.filter(k1));
    crate::lint::lemma_filter_sorted(before, k2);
    crate::lint::lemma_filter_members(before, k2);
    assert(before.filter(k2).to_set() =~= resolved.to_set());
    crate::lint::lemma_sorted_unique(resolved, before.filter(k2));
}

} // verus!