//! Adding a connection: the fix for L001 and L002.
//!
//! L001 means "the master copy says there should be a connection here, and this
//! environment has none". The master copy already says who reaches whom and which
//! endpoint; what is missing is which machines that is here, and that can be looked
//! up. So [`propose`] drafts one, and [`choices`] lists what either end can be swapped
//! for. What the tool does not know (whether the traffic passes an F5, whether a
//! fallback is taken) it says in the notes rather than guess.

use vstd::prelude::*;
use crate::{Project, ProjectView};
use crate::environment::{InfrastructureNode, ConnectionEnd, EndpointView, InfrastructureNodeView, ContainerInstance, ContainerInstanceView, Endpointing, EndpointingView, Environment,
    EnvironmentView, InstanceRef, InstanceRefView, SoftwareSystemInstance, SoftwareSystemInstanceView, env_instances,
    instance_refs_view, matching_slug, opt_id_view, copy_opt_id};
use crate::id::Id;
use crate::logical::{Container, ContainerView, EndpointDef, EndpointDefView, PersonView, LogicalView, RelationshipEnd, RelationshipEndView, container_ids, first_index, lemma_first_index,
    relationship_ids, system_ids};
use crate::pattern::{chars_of, glob};
use crate::table::SideKind;
use crate::duplicate::Duplicate;
use crate::text::{concat2, concat3, decimal, decimal_text, string_of, trim_spec, trimmed};

verus! {

/// One place in the environment that an end of a connection can attach to.
#[derive(Debug, Clone, PartialEq, Eq)]
pub struct Choice {
    pub kind: SideKind,
    /// Such as `redis-01 : client-port`.
    pub label: String,
    /// The group in a drop-down: 服務, 服務（整群）, 設備, 外部系統 or 人.
    pub group: String,
    /// What goes into the new connection as it is; callers carry it back unread.
    pub endpointing: Endpointing,
}

pub struct ChoiceView {
    pub kind: SideKind,
    pub label: Seq<char>,
    pub group: Seq<char>,
    pub endpointing: EndpointingView,
}

impl View for Choice {
    type V = ChoiceView;

    open spec fn view(&self) -> ChoiceView {
        ChoiceView { kind: self.kind, label: self.label@, group: self.group@, endpointing: self.endpointing@ }
    }
}

/// A connection drafted from a relationship.
#[derive(Debug, Clone, PartialEq, Eq)]
pub struct Proposal {
    /// Given out here, so that applying it is deterministic.
    pub id: Id,
    pub serves: Id,
    pub purpose: String,
    /// `None` where no end could be drafted (say, the source has no instance here).
    pub from: Option<Endpointing>,
    pub to: Option<Endpointing>,
    /// What the draft assumed and where it could not draft; always to be shown.
    pub notes: Vec<String>,
}

pub struct ProposalView {
    pub id: Seq<char>,
    pub serves: Seq<char>,
    pub purpose: Seq<char>,
    pub from: Option<EndpointingView>,
    pub to: Option<EndpointingView>,
    pub notes: Seq<Seq<char>>,
}

pub open spec fn opt_endpointing_view(o: Option<Endpointing>) -> Option<EndpointingView> {
    match o {
        Some(x) => Some(x@),
        None => None,
    }
}

pub open spec fn texts_view(s: Seq<String>) -> Seq<Seq<char>> {
    s.map_values(|x: String| x@)
}

impl View for Proposal {
    type V = ProposalView;

    open spec fn view(&self) -> ProposalView {
        ProposalView {
            id: self.id@,
            serves: self.serves@,
            purpose: self.purpose@,
            from: opt_endpointing_view(self.from),
            to: opt_endpointing_view(self.to),
            notes: texts_view(self.notes@),
        }
    }
}

impl Proposal {
    /// Whether both ends could be drafted, so that it can be sent as it is.
    pub fn is_complete(&self) -> (r: bool)
        ensures
            r == (self.from is Some && self.to is Some),
    {
        self.from.is_some() && self.to.is_some()
    }
}

// ---- wildcards for a group of instances ----

/// The longest common beginning of two texts.
pub open spec fn lcp(a: Seq<char>, b: Seq<char>) -> Seq<char>
    decreases a.len(),
{
    if a.len() == 0 || b.len() == 0 || a[0] != b[0] {
        seq![]
    } else {
        seq![a[0]] + lcp(a.drop_first(), b.drop_first())
    }
}

/// The common beginning of all the names (the first name alone for one, nothing for none).
pub open spec fn common_prefix(names: Seq<Seq<char>>) -> Seq<char>
    decreases names.len(),
{
    if names.len() == 0 {
        seq![]
    } else if names.len() == 1 {
        names[0]
    } else {
        lcp(common_prefix(names.drop_last()), names.last())
    }
}

pub open spec fn slugs_of(s: Seq<ContainerInstanceView>) -> Seq<Seq<char>> {
    s.map_values(|i: ContainerInstanceView| i.slug)
}

/// The wildcard for a group of instances of one service: the service's name and `-*`
/// when that catches all of them, else their common beginning and `*`.
pub open spec fn pattern_for(l: LogicalView, container: Seq<char>, group: Seq<ContainerInstanceView>) -> Seq<char> {
    let fallback = common_prefix(slugs_of(group)) + "*"@;
    match first_index(container_ids(l), container) {
        Some(k) => {
            let candidate = l.containers[k].slug + "-*"@;
            if forall|j: int| 0 <= j < group.len() ==> glob(candidate, #[trigger] group[j].slug) {
                candidate
            } else {
                fallback
            }
        },
        None => fallback,
    }
}

/// The instances of a service in an environment, in tree order.
pub open spec fn landings_of(e: EnvironmentView, container: Seq<char>) -> Seq<ContainerInstanceView> {
    env_instances(e).filter(|i: ContainerInstanceView| i.container == container)
}

/// The landings of an external system in an environment.
pub open spec fn system_landings(e: EnvironmentView, system: Seq<char>) -> Seq<SoftwareSystemInstanceView> {
    e.systems.filter(|s: SoftwareSystemInstanceView| s.system == system)
}

/// The note for a wildcard that catches another number of machines than the service
/// has: its expected count stays what the user wants, and lint says the rest.
pub open spec fn pattern_note(which: Seq<char>, pattern: Seq<char>, env_slug: Seq<char>, caught: nat, count: nat) -> Seq<char> {
    which + "的樣式 "@ + pattern + " 在 "@ + env_slug + " 會抓到 "@ + decimal(caught) + " 台，但這個服務只有 "@ + decimal(count)
        + " 台。請改寫樣式。"@
}

/// A wildcard (not a list of each machine: a list needs a line per machine added
/// later, which is what this tool exists to catch), with the notes it needs.
pub open spec fn as_pattern(l: LogicalView, e: EnvironmentView, container: Seq<char>, group: Seq<ContainerInstanceView>, which: Seq<char>) -> (InstanceRefView, Seq<Seq<char>>) {
    let pattern = pattern_for(l, container, group);
    let caught = env_instances(e).filter(matching_slug(pattern)).len();
    (
        InstanceRefView::Pattern { slug_pattern: pattern, within: None, expect: Some(group.len() as u32) },
        if caught != group.len() {
            seq![pattern_note(which, pattern, e.slug, caught, group.len())]
        } else {
            seq![]
        },
    )
}

/// The end of a drafted connection for one end of a relationship, with its notes.
pub open spec fn resolve_spec(l: LogicalView, e: EnvironmentView, end: RelationshipEndView, endpoint: Option<Seq<char>>, which: Seq<char>) -> (Option<EndpointingView>, Seq<Seq<char>>) {
    match end {
        RelationshipEndView::Person(p) => (Some(EndpointingView::Person { person: p }), seq![]),
        RelationshipEndView::System(s) => {
            let ls = system_landings(e, s);
            if ls.len() == 0 {
                (None, seq![which + "的外部系統在 "@ + e.slug + " 沒有指定位址，要先補上。"@])
            } else if ls.len() == 1 {
                (Some(EndpointingView::System { instance: ls[0].id, endpoint }), seq![])
            } else {
                (
                    Some(EndpointingView::System { instance: ls[0].id, endpoint }),
                    seq![which + "的外部系統在 "@ + e.slug + " 有 "@ + decimal(ls.len()) + " 個服務實體，先挑了第一個。"@],
                )
            }
        },
        RelationshipEndView::Container(c) => {
            let ls = landings_of(e, c);
            if ls.len() == 0 {
                let slug = match first_index(container_ids(l), c) {
                    Some(k) => l.containers[k].slug,
                    None => c,
                };
                (None, seq![which + "的服務 "@ + slug + " 在 "@ + e.slug + " 一台都還沒建，要先建機器。"@])
            } else if ls.len() == 1 {
                (Some(EndpointingView::Instance { target: InstanceRefView::One(ls[0].id), endpoint }), seq![])
            } else {
                let (target, notes) = as_pattern(l, e, c, ls, which);
                (Some(EndpointingView::Instance { target, endpoint }), notes)
            }
        },
    }
}

/// The draft of a connection realising the relationship in the environment, with the
/// id given; `None` when there is no such relationship.
pub open spec fn propose_spec(p: ProjectView, e: EnvironmentView, relationship: Seq<char>, id: Seq<char>) -> Option<ProposalView> {
    match first_index(relationship_ids(p.logical), relationship) {
        Some(k) => {
            let r = p.logical.relationships[k];
            let (from, n1) = resolve_spec(p.logical, e, r.from, None, "來源"@);
            let (to, n2) = resolve_spec(p.logical, e, r.to, Some(r.to_endpoint), "目標"@);
            let last = if from is Some && to is Some {
                seq!["擬的是直達的一段。若這條流量其實會經過 F5 之類的設備，請改成兩段。"@]
            } else {
                seq![]
            };
            Some(ProposalView { id, serves: r.id, purpose: trim_spec(r.purpose), from, to, notes: n1 + n2 + last })
        },
        None => None,
    }
}

// ---- computing a draft ----

proof fn lemma_lcp(a: Seq<char>, b: Seq<char>, k: int)
    requires
        0 <= k <= a.len(),
        k <= b.len(),
        forall|j: int| 0 <= j < k ==> a[j] == b[j],
        k == a.len() || k == b.len() || a[k] != b[k],
    ensures
        lcp(a, b) == a.take(k),
    decreases a.len(),
{
    if k == 0 {
        assert(a.take(0) =~= Seq::<char>::empty());
    } else {
        assert forall|j: int| 0 <= j < k - 1 implies a.drop_first()[j] == b.drop_first()[j] by {
            assert(a.drop_first()[j] == a[j + 1]);
            assert(b.drop_first()[j] == b[j + 1]);
        }
        if k - 1 < a.drop_first().len() && k - 1 < b.drop_first().len() {
            assert(a.drop_first()[k - 1] == a[k]);
            assert(b.drop_first()[k - 1] == b[k]);
        }
        lemma_lcp(a.drop_first(), b.drop_first(), k - 1);
        assert(seq![a[0]] + a.drop_first().take(k - 1) =~= a.take(k));
    }
}

fn lcp_exec(a: &Vec<char>, b: &Vec<char>) -> (r: Vec<char>)
    ensures
        r@ == lcp(a@, b@),
{
    let mut out: Vec<char> = Vec::new();
    let mut k: usize = 0;
    while k < a.len() && k < b.len() && a[k] == b[k]
        invariant
            k <= a@.len(),
            k <= b@.len(),
            forall|j: int| 0 <= j < k ==> a@[j] == b@[j],
            out@ == a@.take(k as int),
        decreases a.len() - k,
    {
        out.push(a[k]);
        assert(a@.take(k + 1) =~= a@.take(k as int).push(a@[k as int]));
        k += 1;
    }
    proof {
        lemma_lcp(a@, b@, k as int);
    }
    out
}

fn common_prefix_of(group: &Vec<&ContainerInstance>) -> (r: Vec<char>)
    ensures
        r@ == common_prefix(slugs_of(instance_refs_view(group@))),
{
    let ghost names = slugs_of(instance_refs_view(group@));
    if group.len() == 0 {
        return Vec::new();
    }
    let mut prefix = chars_of(group[0].slug.as_str());
    assert(names.take(1) =~= seq![names[0]]);
    let mut i: usize = 1;
    while i < group.len()
        invariant
            1 <= i <= group@.len(),
            names == slugs_of(instance_refs_view(group@)),
            prefix@ == common_prefix(names.take(i as int)),
        decreases group.len() - i,
    {
        let this_one = chars_of(group[i].slug.as_str());
        prefix = lcp_exec(&prefix, &this_one);
        proof {
            let c = names.take(i + 1);
            assert(c.drop_last() =~= names.take(i as int));
            assert(c.last() == group@[i as int].slug@);
        }
        i += 1;
    }
    assert(names.take(i as int) =~= names);
    prefix
}

fn pattern_for_exec(project: &Project, container: &crate::id::Id, group: &Vec<&ContainerInstance>) -> (r: String)
    ensures
        r@ == pattern_for(project@.logical, container@, instance_refs_view(group@)),
{
    let ghost g = instance_refs_view(group@);
    if let Some(c) = project.logical.container(container) {
        let mut candidate = c.slug.clone();
        candidate.append("-*");
        let mut all = true;
        let mut i: usize = 0;
        while i < group.len()
            invariant
                i <= group@.len(),
                g == instance_refs_view(group@),
                all == (forall|j: int| 0 <= j < i ==> glob(candidate@, #[trigger] g[j].slug)),
            decreases group.len() - i,
        {
            assert(g[i as int] == group@[i as int]@);
            let ghost prev = all;
            let hit = crate::pattern::matches(candidate.as_str(), group[i].slug.as_str());
            if !hit {
                all = false;
            }
            proof {
                if all {
                    assert forall|j: int| 0 <= j < i + 1 implies glob(candidate@, #[trigger] g[j].slug) by {
                        if j < i {
                            assert(prev);
                        }
                    }
                } else if prev {
                    assert(!glob(candidate@, g[i as int].slug));
                }
            }
            i += 1;
        }
        if all {
            return candidate;
        }
    }
    let prefix = common_prefix_of(group);
    let mut out = string_of(&prefix);
    out.append("*");
    out
}

/// The instances of `all` that run the service, in order.
pub(crate) fn landings<'a>(all: &Vec<&'a ContainerInstance>, container: &crate::id::Id) -> (r: Vec<&'a ContainerInstance>)
    ensures
        instance_refs_view(r@) == instance_refs_view(all@).filter(|i: ContainerInstanceView| i.container == container@),
{
    let ghost s = instance_refs_view(all@);
    let ghost pred = |i: ContainerInstanceView| i.container == container@;
    let mut out: Vec<&ContainerInstance> = Vec::new();
    let mut i: usize = 0;
    while i < all.len()
        invariant
            i <= all@.len(),
            s == instance_refs_view(all@),
            pred == (|i: ContainerInstanceView| i.container == container@),
            instance_refs_view(out@) == s.take(i as int).filter(pred),
        decreases all.len() - i,
    {
        proof {
            let c = s.take(i + 1);
            assert(c.drop_last() =~= s.take(i as int));
            reveal(Seq::filter);
            assert(s[i as int] == all@[i as int]@);
        }
        if all[i].container.same(container) {
            let ghost before = instance_refs_view(out@);
            out.push(all[i]);
            assert(instance_refs_view(out@) =~= before.push(s[i as int]));
        }
        i += 1;
    }
    assert(s.take(i as int) =~= s);
    out
}

fn system_landings_exec<'a>(env: &'a Environment, system: &crate::id::Id) -> (r: Vec<&'a SoftwareSystemInstance>)
    ensures
        r@.map_values(|x: &SoftwareSystemInstance| x@) == system_landings(env@, system@),
{
    let ghost s = env@.systems;
    let ghost pred = |x: SoftwareSystemInstanceView| x.system == system@;
    let mut out: Vec<&SoftwareSystemInstance> = Vec::new();
    let mut i: usize = 0;
    while i < env.systems.len()
        invariant
            i <= env.systems@.len(),
            s == env@.systems,
            pred == (|x: SoftwareSystemInstanceView| x.system == system@),
            out@.map_values(|x: &SoftwareSystemInstance| x@) == s.take(i as int).filter(pred),
        decreases env.systems.len() - i,
    {
        proof {
            let c = s.take(i + 1);
            assert(c.drop_last() =~= s.take(i as int));
            reveal(Seq::filter);
            assert(s[i as int] == env.systems@[i as int]@);
        }
        if env.systems[i].system.same(system) {
            let ghost before = out@.map_values(|x: &SoftwareSystemInstance| x@);
            out.push(&env.systems[i]);
            assert(out@.map_values(|x: &SoftwareSystemInstance| x@) =~= before.push(s[i as int]));
        }
        i += 1;
    }
    assert(s.take(i as int) =~= s);
    out
}

fn as_pattern_exec(project: &Project, env: &Environment, container: &crate::id::Id, group: &Vec<&ContainerInstance>, which: &str) -> (r: (InstanceRef, Vec<String>))
    ensures
        r.0@ == as_pattern(project@.logical, env@, container@, instance_refs_view(group@), which@).0,
        texts_view(r.1@) == as_pattern(project@.logical, env@, container@, instance_refs_view(group@), which@).1,
{
    let pattern = pattern_for_exec(project, container, group);
    let caught = env.instances_matching(pattern.as_str()).len();
    let mut notes: Vec<String> = Vec::new();
    if caught != group.len() {
        let mut note = which.to_string();
        note.append("的樣式 ");
        note.append(pattern.as_str());
        note.append(" 在 ");
        note.append(env.slug.as_str());
        note.append(" 會抓到 ");
        note.append(decimal_text(caught as u64).as_str());
        note.append(" 台，但這個服務只有 ");
        note.append(decimal_text(group.len() as u64).as_str());
        note.append(" 台。請改寫樣式。");
        notes.push(note);
        assert(texts_view(notes@) =~= seq![pattern_note(which@, pattern@, env@.slug, caught as nat, group@.len())]);
    } else {
        assert(texts_view(notes@) =~= Seq::<Seq<char>>::empty());
    }
    let n = group.len() as u32;
    (InstanceRef::Pattern { slug_pattern: pattern, within: None, expect: Some(n) }, notes)
}

fn system_note(which: &str, env_slug: &str, many: usize) -> (r: String)
    ensures
        r@ == which@ + "的外部系統在 "@ + env_slug@ + " 有 "@ + decimal(many as nat) + " 個服務實體，先挑了第一個。"@,
{
    let mut note = which.to_string();
    note.append("的外部系統在 ");
    note.append(env_slug);
    note.append(" 有 ");
    note.append(decimal_text(many as u64).as_str());
    note.append(" 個服務實體，先挑了第一個。");
    note
}

fn resolve_end(project: &Project, env: &Environment, end: &RelationshipEnd, endpoint: &Option<Id>, which: &str) -> (r: (Option<Endpointing>, Vec<String>))
    ensures
        opt_endpointing_view(r.0) == resolve_spec(project@.logical, env@, end@, opt_id_view(*endpoint), which@).0,
        texts_view(r.1@) == resolve_spec(project@.logical, env@, end@, opt_id_view(*endpoint), which@).1,
{
    let mut notes: Vec<String> = Vec::new();
    match end {
        RelationshipEnd::Person(person) => {
            assert(texts_view(notes@) =~= Seq::<Seq<char>>::empty());
            (Some(Endpointing::Person { person: person.copy() }), notes)
        },
        RelationshipEnd::System(system) => {
            let ls = system_landings_exec(env, system);
            let ghost lv = system_landings(env@, system@);
            assert(ls@.len() == lv.len());
            if ls.len() == 0 {
                let mut note = which.to_string();
                note.append("的外部系統在 ");
                note.append(env.slug.as_str());
                note.append(" 沒有指定位址，要先補上。");
                notes.push(note);
                assert(texts_view(notes@) =~= seq![note@]);
                (None, notes)
            } else {
                assert(ls@[0]@ == lv[0]);
                if ls.len() > 1 {
                    notes.push(system_note(which, env.slug.as_str(), ls.len()));
                    assert(texts_view(notes@) =~= seq![notes@[0]@]);
                } else {
                    assert(texts_view(notes@) =~= Seq::<Seq<char>>::empty());
                }
                (Some(Endpointing::System { instance: ls[0].id.copy(), endpoint: copy_opt_id(endpoint) }), notes)
            }
        },
        RelationshipEnd::Container(container) => {
            let all = env.instances();
            let ls = landings(&all, container);
            let ghost lv = landings_of(env@, container@);
            assert(instance_refs_view(ls@) == lv);
            assert(ls@.len() == lv.len());
            if ls.len() == 0 {
                let slug = match project.logical.container(container) {
                    Some(c) => c.slug.clone(),
                    None => container.to_text(),
                };
                let mut note = which.to_string();
                note.append("的服務 ");
                note.append(slug.as_str());
                note.append(" 在 ");
                note.append(env.slug.as_str());
                note.append(" 一台都還沒建，要先建機器。");
                notes.push(note);
                assert(texts_view(notes@) =~= seq![note@]);
                (None, notes)
            } else if ls.len() == 1 {
                assert(ls@[0]@ == lv[0]);
                assert(texts_view(notes@) =~= Seq::<Seq<char>>::empty());
                (Some(Endpointing::Instance { target: InstanceRef::One(ls[0].id.copy()), endpoint: copy_opt_id(endpoint) }), notes)
            } else {
                let (target, more) = as_pattern_exec(project, env, container, &ls, which);
                (Some(Endpointing::Instance { target, endpoint: copy_opt_id(endpoint) }), more)
            }
        },
    }
}

/// The draft of the connection that realises the relationship in the environment,
/// under the id given; `None` when the project has no such relationship.
pub fn propose_with(project: &Project, env: &Environment, relationship: &Id, id: Id) -> (r: Option<Proposal>)
    ensures
        match propose_spec(project@, env@, relationship@, id@) {
            Some(v) => r matches Some(x) && x@ == v,
            None => r is None,
        },
{
    let rel = match project.logical.relationship(relationship) {
        Some(x) => x,
        None => return None,
    };
    let (from, n1) = resolve_end(project, env, &rel.from, &None, "來源");
    let to_endpoint = Some(rel.to_endpoint.copy());
    let (to, n2) = resolve_end(project, env, &rel.to, &to_endpoint, "目標");
    let mut notes = n1;
    let mut rest = n2;
    notes.append(&mut rest);
    let ghost before = texts_view(notes@);
    if from.is_some() && to.is_some() {
        notes.push("擬的是直達的一段。若這條流量其實會經過 F5 之類的設備，請改成兩段。".to_string());
        assert(texts_view(notes@) =~= before + seq!["擬的是直達的一段。若這條流量其實會經過 F5 之類的設備，請改成兩段。"@]);
    } else {
        assert(texts_view(notes@) =~= before + Seq::<Seq<char>>::empty());
    }
    assert(before =~= texts_view(n1@) + texts_view(n2@));
    Some(Proposal { id, serves: rel.id.copy(), purpose: trimmed(rel.purpose.as_str()), from, to, notes })
}

/// The draft of the connection that realises the relationship in the environment,
/// under a new id; `None` when the project has no such relationship.
pub fn propose(project: &Project, env: &Environment, relationship: &Id) -> (r: Option<Proposal>)
    ensures
        match r {
            Some(x) => propose_spec(project@, env@, relationship@, x.id@) == Some(x@),
            None => propose_spec(project@, env@, relationship@, seq![]) is None,
        },
{
    propose_with(project, env, relationship, Id::generate())
}

// ---- what an end can be swapped for ----

pub open spec fn choices_view(s: Seq<Choice>) -> Seq<ChoiceView> {
    s.map_values(|c: Choice| c@)
}

/// The choices of every element, one element after the other.
pub open spec fn concat_choices<A>(s: Seq<A>, f: spec_fn(A) -> Seq<ChoiceView>) -> Seq<ChoiceView>
    decreases s.len(),
{
    if s.len() == 0 {
        seq![]
    } else {
        concat_choices(s.drop_last(), f) + f(s.last())
    }
}

/// The endpoint definitions of the service with this id (none when there is none).
pub open spec fn container_defs(l: LogicalView, c: Seq<char>) -> Seq<EndpointDefView> {
    match first_index(container_ids(l), c) {
        Some(k) => l.containers[k].endpoints,
        None => seq![],
    }
}

/// The endpoint definitions of the external system with this id (none when there is none).
pub open spec fn system_defs(l: LogicalView, s: Seq<char>) -> Seq<EndpointDefView> {
    match first_index(system_ids(l), s) {
        Some(k) => l.systems[k].endpoints,
        None => seq![],
    }
}

pub open spec fn one_instance_choice(i: ContainerInstanceView, endpoint: Option<Seq<char>>, label: Seq<char>) -> ChoiceView {
    ChoiceView {
        kind: SideKind::Instance,
        label,
        group: "服務"@,
        endpointing: EndpointingView::Instance { target: InstanceRefView::One(i.id), endpoint },
    }
}

/// For one instance: on a source, the instance with no endpoint; then one choice per
/// endpoint definition of its service (the definitions, which a wildcard's machines share).
pub open spec fn instance_part(l: LogicalView, source: bool) -> spec_fn(ContainerInstanceView) -> Seq<ChoiceView> {
    |i: ContainerInstanceView|
        (if source { seq![one_instance_choice(i, None, i.slug + "（不指定接點）"@)] } else { seq![] })
            + container_defs(l, i.container).map_values(
            |d: EndpointDefView| one_instance_choice(i, Some(d.id), i.slug + " : "@ + d.slug),
        )
}

/// For one service with two or more instances here: its wildcard at each endpoint definition.
pub open spec fn group_part(l: LogicalView, e: EnvironmentView) -> spec_fn(ContainerView) -> Seq<ChoiceView> {
    |c: ContainerView|
        {
            let ls = landings_of(e, c.id);
            if ls.len() < 2 {
                seq![]
            } else {
                let target = as_pattern(l, e, c.id, ls, seq![]).0;
                c.endpoints.map_values(
                    |d: EndpointDefView|
                        ChoiceView {
                            kind: SideKind::Instance,
                            label: pattern_for(l, c.id, ls) + " : "@ + d.slug + "（"@ + decimal(ls.len()) + " 台）"@,
                            group: "服務（整群）"@,
                            endpointing: EndpointingView::Instance { target, endpoint: Some(d.id) },
                        },
                )
            }
        }
}

/// For one device: each of its concrete endpoints (a device has no definition to point at).
pub open spec fn infra_part() -> spec_fn(InfrastructureNodeView) -> Seq<ChoiceView> {
    |n: InfrastructureNodeView|
        n.endpoints.map_values(
            |ep: EndpointView|
                ChoiceView {
                    kind: SideKind::Infra,
                    label: n.slug + " : "@ + ep.slug,
                    group: "設備"@,
                    endpointing: EndpointingView::Infra { node: n.id, endpoint: Some(ep.id) },
                },
        )
}

/// For one landing of an external system: each endpoint definition of that system.
pub open spec fn system_part(l: LogicalView) -> spec_fn(SoftwareSystemInstanceView) -> Seq<ChoiceView> {
    |x: SoftwareSystemInstanceView|
        system_defs(l, x.system).map_values(
            |d: EndpointDefView|
                ChoiceView {
                    kind: SideKind::System,
                    label: x.slug + " : "@ + d.slug,
                    group: "外部系統"@,
                    endpointing: EndpointingView::System { instance: x.id, endpoint: Some(d.id) },
                },
        )
}

/// The people, who are only ever a source.
pub open spec fn people_choices(l: LogicalView) -> Seq<ChoiceView> {
    l.people.map_values(
        |p: PersonView|
            ChoiceView { kind: SideKind::Person, label: p.slug, group: "人"@, endpointing: EndpointingView::Person { person: p.id } },
    )
}

/// Every place in the environment that the given end of a connection can attach to:
/// instances, whole groups, devices, external systems, and on a source people too.
pub open spec fn choices_spec(l: LogicalView, e: EnvironmentView, end: ConnectionEnd) -> Seq<ChoiceView> {
    let source = end == ConnectionEnd::From;
    concat_choices(env_instances(e), instance_part(l, source))
        + concat_choices(l.containers, group_part(l, e))
        + concat_choices(e.infra, infra_part())
        + concat_choices(e.systems, system_part(l))
        + (if source { people_choices(l) } else { seq![] })
}

proof fn lemma_concat_step<A>(s: Seq<A>, f: spec_fn(A) -> Seq<ChoiceView>, i: int)
    requires
        0 <= i < s.len(),
    ensures
        concat_choices(s.take(i + 1), f) == concat_choices(s.take(i), f) + f(s[i]),
{
    assert(s.take(i + 1).drop_last() =~= s.take(i));
}

proof fn lemma_concat_all<A>(s: Seq<A>, f: spec_fn(A) -> Seq<ChoiceView>)
    ensures
        concat_choices(s.take(s.len() as int), f) == concat_choices(s, f),
{
    assert(s.take(s.len() as int) =~= s);
}

fn instance_choices_of(project: &Project, instance: &ContainerInstance, source: bool) -> (r: Vec<Choice>)
    ensures
        choices_view(r@) == (instance_part(project@.logical, source))(instance@),
{
    let ghost l = project@.logical;
    let ghost i = instance@;
    let mut out: Vec<Choice> = Vec::new();
    if source {
        out.push(Choice {
            kind: SideKind::Instance,
            label: concat2(instance.slug.as_str(), "（不指定接點）"),
            group: "服務".to_string(),
            endpointing: Endpointing::Instance { target: InstanceRef::One(instance.id.copy()), endpoint: None },
        });
    }
    let ghost head = choices_view(out@);
    assert(head == (if source { seq![one_instance_choice(i, None, i.slug + "（不指定接點）"@)] } else { seq![] }));
    let ghost defs = container_defs(l, i.container);
    let ghost g = |d: EndpointDefView| one_instance_choice(i, Some(d.id), i.slug + " : "@ + d.slug);
    match project.logical.container(&instance.container) {
        Some(c) => {
            assert(c.endpoints@.map_values(|d: EndpointDef| d@) == defs);
            let mut k: usize = 0;
            while k < c.endpoints.len()
                invariant
                    k <= c.endpoints@.len(),
                    defs == c.endpoints@.map_values(|d: EndpointDef| d@),
                    i == instance@,
                    g == (|d: EndpointDefView| one_instance_choice(i, Some(d.id), i.slug + " : "@ + d.slug)),
                    choices_view(out@) == head + defs.take(k as int).map_values(g),
                decreases c.endpoints.len() - k,
            {
                let def = &c.endpoints[k];
                let ghost before = choices_view(out@);
                out.push(Choice {
                    kind: SideKind::Instance,
                    label: concat3(instance.slug.as_str(), " : ", def.slug.as_str()),
                    group: "服務".to_string(),
                    endpointing: Endpointing::Instance { target: InstanceRef::One(instance.id.copy()), endpoint: Some(def.id.copy()) },
                });
                proof {
                    assert(defs[k as int] == def@);
                    assert(defs.take(k + 1).map_values(g) =~= defs.take(k as int).map_values(g).push(g(defs[k as int])));
                    assert(choices_view(out@) =~= before.push(out@[out@.len() - 1]@));
                }
                k += 1;
            }
            assert(defs.take(k as int) =~= defs);
        },
        None => {
            assert(defs.map_values(g) =~= Seq::<ChoiceView>::empty());
            assert(choices_view(out@) =~= head + defs.map_values(g));
        },
    }
    out
}

fn group_choices_of(project: &Project, env: &Environment, container: &Container) -> (r: Vec<Choice>)
    ensures
        choices_view(r@) == (group_part(project@.logical, env@))(container@),
{
    let ghost l = project@.logical;
    let ghost c = container@;
    let all = env.instances();
    let group = landings(&all, &container.id);
    let ghost ls = landings_of(env@, c.id);
    assert(instance_refs_view(group@) == ls);
    let mut out: Vec<Choice> = Vec::new();
    if group.len() < 2 {
        assert(choices_view(out@) =~= Seq::<ChoiceView>::empty());
        return out;
    }
    proof {
        reveal_strlit("");
    }
    let (target, _notes) = as_pattern_exec(project, env, &container.id, &group, "");
    let slug_pattern = match &target {
        InstanceRef::Pattern { slug_pattern, .. } => slug_pattern.clone(),
        InstanceRef::One(_) => return out,
    };
    let count = decimal_text(group.len() as u64);
    let ghost tv = as_pattern(l, env@, c.id, ls, seq![]).0;
    assert(""@ =~= Seq::<char>::empty());
    assert(target@ == tv);
    assert(slug_pattern@ == pattern_for(l, c.id, ls));
    let ghost g = |d: EndpointDefView|
        ChoiceView {
            kind: SideKind::Instance,
            label: pattern_for(l, c.id, ls) + " : "@ + d.slug + "（"@ + decimal(ls.len()) + " 台）"@,
            group: "服務（整群）"@,
            endpointing: EndpointingView::Instance { target: tv, endpoint: Some(d.id) },
        };
    let ghost defs = c.endpoints;
    let mut k: usize = 0;
    while k < container.endpoints.len()
        invariant
            k <= container.endpoints@.len(),
            c == container@,
            defs == c.endpoints,
            target@ == tv,
            slug_pattern@ == pattern_for(l, c.id, ls),
            count@ == decimal(ls.len()),
            g == (|d: EndpointDefView|
                ChoiceView {
                    kind: SideKind::Instance,
                    label: pattern_for(l, c.id, ls) + " : "@ + d.slug + "（"@ + decimal(ls.len()) + " 台）"@,
                    group: "服務（整群）"@,
                    endpointing: EndpointingView::Instance { target: tv, endpoint: Some(d.id) },
                }),
            choices_view(out@) == defs.take(k as int).map_values(g),
        decreases container.endpoints.len() - k,
    {
        let def = &container.endpoints[k];
        let mut label = concat3(slug_pattern.as_str(), " : ", def.slug.as_str());
        label.append("（");
        label.append(count.as_str());
        label.append(" 台）");
        let ghost before = choices_view(out@);
        out.push(Choice {
            kind: SideKind::Instance,
            label,
            group: "服務（整群）".to_string(),
            endpointing: Endpointing::Instance { target: target.duplicate(), endpoint: Some(def.id.copy()) },
        });
        proof {
            assert(defs[k as int] == def@);
            assert(defs.take(k + 1).map_values(g) =~= defs.take(k as int).map_values(g).push(g(defs[k as int])));
            assert(choices_view(out@) =~= before.push(out@[out@.len() - 1]@));
        }
        k += 1;
    }
    assert(defs.take(k as int) =~= defs);
    out
}

fn infra_choices_of(node: &InfrastructureNode) -> (r: Vec<Choice>)
    ensures
        choices_view(r@) == (infra_part())(node@),
{
    let ghost n = node@;
    let ghost eps = n.endpoints;
    let ghost g = |ep: EndpointView|
        ChoiceView {
            kind: SideKind::Infra,
            label: n.slug + " : "@ + ep.slug,
            group: "設備"@,
            endpointing: EndpointingView::Infra { node: n.id, endpoint: Some(ep.id) },
        };
    let mut out: Vec<Choice> = Vec::new();
    let mut k: usize = 0;
    while k < node.endpoints.len()
        invariant
            k <= node.endpoints@.len(),
            n == node@,
            eps == n.endpoints,
            g == (|ep: EndpointView|
                ChoiceView {
                    kind: SideKind::Infra,
                    label: n.slug + " : "@ + ep.slug,
                    group: "設備"@,
                    endpointing: EndpointingView::Infra { node: n.id, endpoint: Some(ep.id) },
                }),
            choices_view(out@) == eps.take(k as int).map_values(g),
        decreases node.endpoints.len() - k,
    {
        let ep = &node.endpoints[k];
        let ghost before = choices_view(out@);
        out.push(Choice {
            kind: SideKind::Infra,
            label: concat3(node.slug.as_str(), " : ", ep.slug.as_str()),
            group: "設備".to_string(),
            endpointing: Endpointing::Infra { node: node.id.copy(), endpoint: Some(ep.id.copy()) },
        });
        proof {
            assert(eps[k as int] == ep@);
            assert(eps.take(k + 1).map_values(g) =~= eps.take(k as int).map_values(g).push(g(eps[k as int])));
            assert(choices_view(out@) =~= before.push(out@[out@.len() - 1]@));
        }
        k += 1;
    }
    assert(eps.take(k as int) =~= eps);
    out
}

fn system_choices_of(project: &Project, landing: &SoftwareSystemInstance) -> (r: Vec<Choice>)
    ensures
        choices_view(r@) == (system_part(project@.logical))(landing@),
{
    let ghost l = project@.logical;
    let ghost x = landing@;
    let ghost defs = system_defs(l, x.system);
    let ghost g = |d: EndpointDefView|
        ChoiceView {
            kind: SideKind::System,
            label: x.slug + " : "@ + d.slug,
            group: "外部系統"@,
            endpointing: EndpointingView::System { instance: x.id, endpoint: Some(d.id) },
        };
    let mut out: Vec<Choice> = Vec::new();
    match project.logical.system(&landing.system) {
        Some(sys) => {
            assert(sys.endpoints@.map_values(|d: EndpointDef| d@) == defs);
            let mut k: usize = 0;
            while k < sys.endpoints.len()
                invariant
                    k <= sys.endpoints@.len(),
                    defs == sys.endpoints@.map_values(|d: EndpointDef| d@),
                    x == landing@,
                    g == (|d: EndpointDefView|
                        ChoiceView {
                            kind: SideKind::System,
                            label: x.slug + " : "@ + d.slug,
                            group: "外部系統"@,
                            endpointing: EndpointingView::System { instance: x.id, endpoint: Some(d.id) },
                        }),
                    choices_view(out@) == defs.take(k as int).map_values(g),
                decreases sys.endpoints.len() - k,
            {
                let def = &sys.endpoints[k];
                let ghost before = choices_view(out@);
                out.push(Choice {
                    kind: SideKind::System,
                    label: concat3(landing.slug.as_str(), " : ", def.slug.as_str()),
                    group: "外部系統".to_string(),
                    endpointing: Endpointing::System { instance: landing.id.copy(), endpoint: Some(def.id.copy()) },
                });
                proof {
                    assert(defs[k as int] == def@);
                    assert(defs.take(k + 1).map_values(g) =~= defs.take(k as int).map_values(g).push(g(defs[k as int])));
                    assert(choices_view(out@) =~= before.push(out@[out@.len() - 1]@));
                }
                k += 1;
            }
            assert(defs.take(k as int) =~= defs);
        },
        None => {
            assert(choices_view(out@) =~= defs.map_values(g));
        },
    }
    out
}

/// Every place in the environment that the given end of a connection can attach to,
/// to swap one end of a draft for. A source also has "no endpoint" on each instance
/// (the OS picks a source port) and the people, who are only ever a source.
pub fn choices(project: &Project, env: &Environment, end: ConnectionEnd) -> (r: Vec<Choice>)
    ensures
        choices_view(r@) == choices_spec(project@.logical, env@, end),
{
    let ghost l = project@.logical;
    let ghost e = env@;
    let source = end == ConnectionEnd::From;
    let mut out: Vec<Choice> = Vec::new();

    let all = env.instances();
    let ghost insts = env_instances(e);
    let mut i: usize = 0;
    while i < all.len()
        invariant
            i <= all@.len(),
            instance_refs_view(all@) == insts,
            l == project@.logical,
            choices_view(out@) == concat_choices(insts.take(i as int), instance_part(l, source)),
        decreases all.len() - i,
    {
        let mut more = instance_choices_of(project, all[i], source);
        let ghost before = choices_view(out@);
        let ghost extra = choices_view(more@);
        out.append(&mut more);
        proof {
            assert(insts[i as int] == all@[i as int]@);
            lemma_concat_step(insts, instance_part(l, source), i as int);
            assert(choices_view(out@) =~= before + extra);
        }
        i += 1;
    }
    proof {
        lemma_concat_all(insts, instance_part(l, source));
    }
    let ghost a1 = choices_view(out@);

    let mut i: usize = 0;
    while i < project.logical.containers.len()
        invariant
            i <= project.logical.containers@.len(),
            l == project@.logical,
            e == env@,
            choices_view(out@) == a1 + concat_choices(l.containers.take(i as int), group_part(l, e)),
        decreases project.logical.containers.len() - i,
    {
        let mut more = group_choices_of(project, env, &project.logical.containers[i]);
        let ghost before = choices_view(out@);
        let ghost extra = choices_view(more@);
        out.append(&mut more);
        proof {
            assert(l.containers[i as int] == project.logical.containers@[i as int]@);
            lemma_concat_step(l.containers, group_part(l, e), i as int);
            assert(choices_view(out@) =~= before + extra);
        }
        i += 1;
    }
    proof {
        lemma_concat_all(l.containers, group_part(l, e));
    }
    let ghost a2 = choices_view(out@);

    let mut i: usize = 0;
    while i < env.infra.len()
        invariant
            i <= env.infra@.len(),
            e == env@,
            choices_view(out@) == a2 + concat_choices(e.infra.take(i as int), infra_part()),
        decreases env.infra.len() - i,
    {
        let mut more = infra_choices_of(&env.infra[i]);
        let ghost before = choices_view(out@);
        let ghost extra = choices_view(more@);
        out.append(&mut more);
        proof {
            assert(e.infra[i as int] == env.infra@[i as int]@);
            lemma_concat_step(e.infra, infra_part(), i as int);
            assert(choices_view(out@) =~= before + extra);
        }
        i += 1;
    }
    proof {
        lemma_concat_all(e.infra, infra_part());
    }
    let ghost a3 = choices_view(out@);

    let mut i: usize = 0;
    while i < env.systems.len()
        invariant
            i <= env.systems@.len(),
            e == env@,
            l == project@.logical,
            choices_view(out@) == a3 + concat_choices(e.systems.take(i as int), system_part(l)),
        decreases env.systems.len() - i,
    {
        let mut more = system_choices_of(project, &env.systems[i]);
        let ghost before = choices_view(out@);
        let ghost extra = choices_view(more@);
        out.append(&mut more);
        proof {
            assert(e.systems[i as int] == env.systems@[i as int]@);
            lemma_concat_step(e.systems, system_part(l), i as int);
            assert(choices_view(out@) =~= before + extra);
        }
        i += 1;
    }
    proof {
        lemma_concat_all(e.systems, system_part(l));
    }
    let ghost a4 = choices_view(out@);

    if source {
        let mut i: usize = 0;
        while i < project.logical.people.len()
            invariant
                i <= project.logical.people@.len(),
                l == project@.logical,
                choices_view(out@) == a4 + people_choices(l).take(i as int),
            decreases project.logical.people.len() - i,
        {
            let person = &project.logical.people[i];
            let ghost before = choices_view(out@);
            out.push(Choice {
                kind: SideKind::Person,
                label: person.slug.clone(),
                group: "人".to_string(),
                endpointing: Endpointing::Person { person: person.id.copy() },
            });
            proof {
                assert(l.people[i as int] == person@);
                assert(people_choices(l).take(i + 1) =~= people_choices(l).take(i as int).push(people_choices(l)[i as int]));
                assert(choices_view(out@) =~= before.push(out@[out@.len() - 1]@));
            }
            i += 1;
        }
        assert(people_choices(l).take(i as int) =~= people_choices(l));
    } else {
        assert(choices_view(out@) =~= a4 + Seq::<ChoiceView>::empty());
    }
    out
}


/// Whether a proposed end lands on the endpoint: an instance or external-system end
/// names it; a person has no endpoint, so a person end says nothing.
pub open spec fn end_carries(end: Option<EndpointingView>, endpoint: Option<Seq<char>>) -> bool {
    match end {
        Some(EndpointingView::Instance { endpoint: x, .. }) => x == endpoint,
        Some(EndpointingView::System { endpoint: x, .. }) => x == endpoint,
        _ => true,
    }
}

/// A proposal realises the relationship it is asked for: it serves that relationship,
/// its target end lands on the relationship's target endpoint however many instances
/// the target has, and its source end names no endpoint (the OS picks the port).
pub proof fn lemma_proposal_lands_on_target_endpoint(p: ProjectView, e: EnvironmentView, relationship: Seq<char>, id: Seq<char>)
    requires
        propose_spec(p, e, relationship, id) is Some,
    ensures
        exists|k: int| 0 <= k < p.logical.relationships.len() && #[trigger] p.logical.relationships[k].id == relationship && {
            let x = propose_spec(p, e, relationship, id)->Some_0;
            &&& x.serves == relationship
            &&& end_carries(x.to, Some(p.logical.relationships[k].to_endpoint))
            &&& end_carries(x.from, None)
        },
{
    lemma_first_index(relationship_ids(p.logical), relationship);
    let k = first_index(relationship_ids(p.logical), relationship)->Some_0;
    assert(relationship_ids(p.logical)[k] == p.logical.relationships[k].id);
    let r = p.logical.relationships[k];
    assert(p.logical.relationships[k].id == relationship);
}

} // verus!
