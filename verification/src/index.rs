//! Lookups over one environment, built once.
//!
//! Lint and the coverage matrix ask the same questions of an environment for every
//! connection: which instance has this id, which instances match this wildcard, what
//! lies under this node. This holds the answers; it decides nothing itself.

use vstd::prelude::*;
use crate::Project;
use crate::environment::{Connection, ConnectionView, ContainerInstance, ContainerInstanceView, DeploymentNode,
    DeploymentNodeView, Environment, EnvironmentView, env_instances, instance_ids, instance_refs_view, instances_view,
    nodes_view, lemma_children_view};
use crate::id::Id;
use crate::logical::{Logical, LogicalView, person_ids, relationship_ids};
use crate::order::{seq_lt, ids_view, text_lt};
use crate::pattern::glob;
use crate::reconcile::{last_index, lemma_last_index, lemma_last_index_unique};

verus! {

/// The ids of a node and of every node below it, depth first.
pub open spec fn tree_node_ids(n: DeploymentNodeView) -> Seq<Seq<char>>
    decreases n,
{
    seq![n.id] + forest_node_ids(n.children)
}

pub open spec fn forest_node_ids(s: Seq<DeploymentNodeView>) -> Seq<Seq<char>>
    decreases s,
{
    if s.len() == 0 {
        seq![]
    } else {
        forest_node_ids(s.drop_last()) + tree_node_ids(s.last())
    }
}

/// Each instance of a node's own list, paired with the chain of node ids that leads
/// to it (from the top down, the node itself last).
pub open spec fn own_chains(s: Seq<ContainerInstanceView>, chain: Seq<Seq<char>>) -> Seq<(Seq<char>, Seq<Seq<char>>)> {
    s.map_values(|i: ContainerInstanceView| (i.id, chain))
}

/// Every instance below a node with its chain of ancestors, in tree order.
pub open spec fn tree_chains(n: DeploymentNodeView, prefix: Seq<Seq<char>>) -> Seq<(Seq<char>, Seq<Seq<char>>)>
    decreases n,
{
    own_chains(n.instances, prefix.push(n.id)) + forest_chains(n.children, prefix.push(n.id))
}

pub open spec fn forest_chains(s: Seq<DeploymentNodeView>, prefix: Seq<Seq<char>>) -> Seq<(Seq<char>, Seq<Seq<char>>)>
    decreases s,
{
    if s.len() == 0 {
        seq![]
    } else {
        forest_chains(s.drop_last(), prefix) + tree_chains(s.last(), prefix)
    }
}

pub open spec fn chain_ids(s: Seq<(Seq<char>, Seq<Seq<char>>)>) -> Seq<Seq<char>> {
    s.map_values(|e: (Seq<char>, Seq<Seq<char>>)| e.0)
}

/// The ancestors recorded for an instance id: those of the last instance with it
/// (a later record replaces an earlier one).
pub open spec fn chain_of(e: EnvironmentView, id: Seq<char>) -> Option<Seq<Seq<char>>> {
    let s = forest_chains(e.nodes, Seq::<Seq<char>>::empty());
    match last_index(chain_ids(s), id) {
        Some(k) => Some(s[k].1),
        None => None,
    }
}

/// Whether an instance counts as inside `within`: always without one, else when the
/// node is among its recorded ancestors.
pub open spec fn in_scope(e: EnvironmentView, within: Option<Seq<char>>, i: ContainerInstanceView) -> bool {
    match within {
        None => true,
        Some(node) => match chain_of(e, i.id) {
            Some(c) => c.contains(node),
            None => false,
        },
    }
}

/// `s` with `x` placed after every instance whose slug is not greater than `x`'s.
pub open spec fn insert_by_slug(s: Seq<ContainerInstanceView>, x: ContainerInstanceView) -> Seq<ContainerInstanceView>
    decreases s.len(),
{
    if s.len() == 0 {
        seq![x]
    } else if seq_lt(x.slug, s.last().slug) {
        insert_by_slug(s.drop_last(), x).push(s.last())
    } else {
        s.push(x)
    }
}

/// A stable sort by slug.
pub open spec fn sort_by_slug(s: Seq<ContainerInstanceView>) -> Seq<ContainerInstanceView>
    decreases s.len(),
{
    if s.len() == 0 {
        seq![]
    } else {
        insert_by_slug(sort_by_slug(s.drop_last()), s.last())
    }
}

/// The instances a wildcard picks out: in order of slug (ties in tree order), those
/// whose slug matches the pattern and that lie inside `within`.
pub open spec fn matching(e: EnvironmentView, pattern: Seq<char>, within: Option<Seq<char>>) -> Seq<ContainerInstanceView> {
    sort_by_slug(env_instances(e)).filter(|i: ContainerInstanceView| glob(pattern, i.slug) && in_scope(e, within, i))
}

/// The connections of an environment that serve one relationship, in their order.
pub open spec fn serving_spec(e: EnvironmentView, relationship: Seq<char>) -> Seq<ConnectionView> {
    e.connections.filter(|c: ConnectionView| c.serves == relationship)
}

pub open spec fn chains_view(s: Seq<(Id, Vec<Id>)>) -> Seq<(Seq<char>, Seq<Seq<char>>)> {
    s.map_values(|p: (Id, Vec<Id>)| (p.0@, ids_view(p.1@)))
}

/// A copy of a list of ids.
pub fn copy_ids(v: &Vec<Id>) -> (r: Vec<Id>)
    ensures
        ids_view(r@) == ids_view(v@),
{
    let mut out: Vec<Id> = Vec::new();
    let mut i: usize = 0;
    while i < v.len()
        invariant
            i <= v.len(),
            ids_view(out@) == ids_view(v@).take(i as int),
        decreases v.len() - i,
    {
        let ghost before = out@;
        out.push(v[i].copy());
        proof {
            assert(ids_view(out@) =~= ids_view(before).push(v@[i as int]@));
            assert(ids_view(v@).take(i + 1) =~= ids_view(v@).take(i as int).push(v@[i as int]@));
        }
        i += 1;
    }
    assert(ids_view(v@).take(i as int) =~= ids_view(v@));
    out
}

/// Whether a list of ids holds this one.
pub fn contains_id(v: &Vec<Id>, id: &Id) -> (r: bool)
    ensures
        r == ids_view(v@).contains(id@),
{
    let mut i: usize = 0;
    while i < v.len()
        invariant
            i <= v.len(),
            forall|j: int| 0 <= j < i ==> v@[j]@ != id@,
        decreases v.len() - i,
    {
        if v[i].same(id) {
            assert(ids_view(v@)[i as int] == id@);
            return true;
        }
        i += 1;
    }
    proof {
        if ids_view(v@).contains(id@) {
            let j = choose|j: int| 0 <= j < ids_view(v@).len() && ids_view(v@)[j] == id@;
            assert(v@[j]@ == id@);
        }
    }
    false
}

/// Walks a node: records its id and below it, and each instance with its chain.
fn visit(node: &DeploymentNode, chain: &mut Vec<Id>, chains: &mut Vec<(Id, Vec<Id>)>, nodes: &mut Vec<Id>)
    ensures
        ids_view(final(chain)@) == ids_view(old(chain)@),
        chains_view(final(chains)@) == chains_view(old(chains)@) + tree_chains(node@, ids_view(old(chain)@)),
        ids_view(final(nodes)@) == ids_view(old(nodes)@) + tree_node_ids(node@),
    decreases node,
{
    let ghost prefix = ids_view(chain@);
    let ghost chains0 = chains_view(chains@);
    let ghost nodes0 = ids_view(nodes@);
    nodes.push(node.id.copy());
    chain.push(node.id.copy());
    let ghost here = ids_view(chain@);
    proof {
        assert(here =~= prefix.push(node@.id));
        assert(ids_view(nodes@) =~= nodes0.push(node@.id));
    }
    let mut i: usize = 0;
    while i < node.instances.len()
        invariant
            i <= node.instances.len(),
            ids_view(chain@) == here,
            chains_view(chains@) == chains0 + own_chains(instances_view(node.instances@).take(i as int), here),
        decreases node.instances.len() - i,
    {
        let ghost before = chains_view(chains@);
        let entry = (node.instances[i].id.copy(), copy_ids(chain));
        chains.push(entry);
        proof {
            assert(chains_view(chains@) =~= before.push((node.instances@[i as int]@.id, here)));
            let s = instances_view(node.instances@);
            assert(s.take(i + 1) =~= s.take(i as int).push(s[i as int]));
            assert(own_chains(s.take(i + 1), here) =~= own_chains(s.take(i as int), here).push((s[i as int].id, here)));
        }
        i += 1;
    }
    proof {
        assert(instances_view(node.instances@).take(i as int) =~= node@.instances);
        lemma_children_view(*node);
    }
    let ghost mid_chains = chains_view(chains@);
    let ghost mid_nodes = ids_view(nodes@);
    let mut j: usize = 0;
    while j < node.children.len()
        invariant
            j <= node.children.len(),
            node@.children == nodes_view(node.children@),
            ids_view(chain@) == here,
            chains_view(chains@) == mid_chains + forest_chains(node@.children.take(j as int), here),
            ids_view(nodes@) == mid_nodes + forest_node_ids(node@.children.take(j as int)),
        decreases node.children.len() - j,
    {
        visit(&node.children[j], chain, chains, nodes);
        proof {
            let c = node@.children.take(j + 1);
            assert(c.drop_last() =~= node@.children.take(j as int));
            assert(c.last() == node.children@[j as int]@);
            assert(chains_view(chains@) =~= mid_chains + forest_chains(c, here));
            assert(ids_view(nodes@) =~= mid_nodes + forest_node_ids(c));
        }
        j += 1;
    }
    proof {
        assert(node@.children.take(j as int) =~= node@.children);
    }
    let ghost before_pop = chain@;
    let _ = chain.pop();
    proof {
        assert(chain@ =~= before_pop.drop_last());
        assert(ids_view(chain@) =~= ids_view(before_pop).drop_last());
        assert(ids_view(chain@) =~= prefix);
        assert(chains_view(chains@) =~= chains0 + tree_chains(node@, prefix));
        assert(ids_view(nodes@) =~= nodes0 + tree_node_ids(node@));
    }
}

fn insert_ref_by_slug<'a>(v: &mut Vec<&'a ContainerInstance>, x: &'a ContainerInstance)
    ensures
        instance_refs_view(final(v)@) == insert_by_slug(instance_refs_view(old(v)@), x@),
{
    let ghost s0 = instance_refs_view(v@);
    let mut i: usize = v.len();
    assert(s0.take(i as int) =~= s0);
    assert(s0.skip(i as int) =~= Seq::<ContainerInstanceView>::empty());
    while i > 0 && text_lt(x.slug.as_str(), v[i - 1].slug.as_str())
        invariant
            i <= v@.len(),
            instance_refs_view(v@) == s0,
            insert_by_slug(s0, x@) == insert_by_slug(s0.take(i as int), x@) + s0.skip(i as int),
        decreases i,
    {
        proof {
            let t = s0.take(i as int);
            assert(t.last() == s0[i - 1]);
            assert(t.drop_last() =~= s0.take(i - 1));
            assert(s0.skip(i - 1) =~= seq![s0[i - 1]] + s0.skip(i as int));
            assert(insert_by_slug(t, x@) == insert_by_slug(s0.take(i - 1), x@).push(s0[i - 1]));
            assert(insert_by_slug(s0.take(i - 1), x@).push(s0[i - 1]) + s0.skip(i as int)
                =~= insert_by_slug(s0.take(i - 1), x@) + s0.skip(i - 1));
        }
        i -= 1;
    }
    v.insert(i, x);
    proof {
        let t = s0.take(i as int);
        if i > 0 {
            assert(t.last() == s0[i - 1]);
            assert(insert_by_slug(t, x@) == t.push(x@));
        } else {
            assert(t.len() == 0);
            assert(insert_by_slug(t, x@) == seq![x@]);
        }
        assert(instance_refs_view(v@) =~= t.push(x@) + s0.skip(i as int));
    }
}

/// The instances in order of slug; instances with equal slugs keep their order.
fn sorted_by_slug<'a>(all: &Vec<&'a ContainerInstance>) -> (r: Vec<&'a ContainerInstance>)
    ensures
        instance_refs_view(r@) == sort_by_slug(instance_refs_view(all@)),
{
    let ghost s = instance_refs_view(all@);
    let mut out: Vec<&'a ContainerInstance> = Vec::new();
    let mut i: usize = 0;
    while i < all.len()
        invariant
            i <= all.len(),
            s == instance_refs_view(all@),
            instance_refs_view(out@) == sort_by_slug(s.take(i as int)),
        decreases all.len() - i,
    {
        proof {
            assert(s.take(i + 1).drop_last() =~= s.take(i as int));
            assert(s.take(i + 1).last() == all@[i as int]@);
        }
        insert_ref_by_slug(&mut out, all[i]);
        i += 1;
    }
    assert(s.take(i as int) =~= s);
    out
}

/// The lookups of one environment of a project.
pub struct EnvIndex<'a> {
    env: &'a Environment,
    logical: &'a Logical,
    all: Vec<&'a ContainerInstance>,
    by_slug: Vec<&'a ContainerInstance>,
    chains: Vec<(Id, Vec<Id>)>,
    nodes: Vec<Id>,
}

impl<'a> EnvIndex<'a> {
    #[verifier::type_invariant]
    spec fn consistent(self) -> bool {
        &&& instance_refs_view(self.all@) == env_instances(self.env@)
        &&& instance_refs_view(self.by_slug@) == sort_by_slug(env_instances(self.env@))
        &&& chains_view(self.chains@) == forest_chains(self.env@.nodes, Seq::<Seq<char>>::empty())
        &&& ids_view(self.nodes@) == forest_node_ids(self.env@.nodes)
    }

    /// The environment looked up.
    pub closed spec fn env_view(self) -> EnvironmentView {
        self.env@
    }

    /// The logical layer of its project.
    pub closed spec fn logical_view(self) -> LogicalView {
        self.logical@
    }

    pub fn build(project: &'a Project, env: &'a Environment) -> (r: EnvIndex<'a>)
        ensures
            r.env_view() == env@,
            r.logical_view() == project@.logical,
    {
        let all = env.instances();
        let by_slug = sorted_by_slug(&all);
        let mut chain: Vec<Id> = Vec::new();
        let mut chains: Vec<(Id, Vec<Id>)> = Vec::new();
        let mut nodes: Vec<Id> = Vec::new();
        let mut i: usize = 0;
        proof {
            assert(chains_view(chains@) =~= Seq::empty());
            assert(ids_view(nodes@) =~= Seq::empty());
            assert(ids_view(chain@) =~= Seq::empty());
        }
        while i < env.nodes.len()
            invariant
                i <= env.nodes.len(),
                ids_view(chain@) == Seq::<Seq<char>>::empty(),
                chains_view(chains@) == forest_chains(env@.nodes.take(i as int), seq![]),
                ids_view(nodes@) == forest_node_ids(env@.nodes.take(i as int)),
            decreases env.nodes.len() - i,
        {
            visit(&env.nodes[i], &mut chain, &mut chains, &mut nodes);
            proof {
                let c = env@.nodes.take(i + 1);
                assert(c.drop_last() =~= env@.nodes.take(i as int));
                assert(c.last() == env.nodes@[i as int]@);
                assert(ids_view(chain@) =~= Seq::<Seq<char>>::empty());
            }
            i += 1;
        }
        assert(env@.nodes.take(i as int) =~= env@.nodes);
        EnvIndex { env, logical: &project.logical, all, by_slug, chains, nodes }
    }

    /// Every instance of the environment, nested ones included, in tree order.
    pub fn instances(&self) -> (r: &Vec<&'a ContainerInstance>)
        ensures
            instance_refs_view(r@) == env_instances(self.env_view()),
    {
        proof {
            use_type_invariant(self);
        }
        &self.all
    }

    /// How many deployment nodes the environment has, at any depth.
    pub fn node_count(&self) -> (r: usize)
        ensures
            r == forest_node_ids(self.env_view().nodes).len(),
    {
        proof {
            use_type_invariant(self);
        }
        self.nodes.len()
    }

    /// Whether the environment has a deployment node with this id (at any depth).
    pub fn knows_node(&self, id: &Id) -> (r: bool)
        ensures
            r == forest_node_ids(self.env_view().nodes).contains(id@),
    {
        proof {
            use_type_invariant(self);
        }
        contains_id(&self.nodes, id)
    }

    /// The instance with this id; the last one, should the id repeat.
    pub fn instance(&self, id: &Id) -> (r: Option<&'a ContainerInstance>)
        ensures
            match last_index(instance_ids(env_instances(self.env_view())), id@) {
                Some(k) => r matches Some(x) && x@ == env_instances(self.env_view())[k],
                None => r is None,
            },
    {
        proof {
            use_type_invariant(self);
        }
        let ghost ids = instance_ids(env_instances(self.env@));
        proof {
            lemma_last_index(ids, id@);
        }
        let mut i: usize = self.all.len();
        while i > 0
            invariant
                i <= self.all@.len(),
                instance_refs_view(self.all@) == env_instances(self.env@),
                ids == instance_ids(env_instances(self.env@)),
                forall|j: int| i <= j < self.all@.len() ==> ids[j] != id@,
            decreases i,
        {
            let k = i - 1;
            assert(ids[k as int] == self.all@[k as int]@.id);
            if self.all[k].id.same(id) {
                proof {
                    lemma_last_index_unique(ids, id@, k as int);
                }
                return Some(self.all[k]);
            }
            i = k;
        }
        None
    }

    /// Whether the logical layer has a relationship with this id.
    pub fn knows_relationship(&self, id: &Id) -> (r: bool)
        ensures
            r == relationship_ids(self.logical_view()).contains(id@),
    {
        let mut i: usize = 0;
        while i < self.logical.relationships.len()
            invariant
                i <= self.logical.relationships@.len(),
                forall|j: int| 0 <= j < i ==> self.logical.relationships@[j].id@ != id@,
            decreases self.logical.relationships.len() - i,
        {
            if self.logical.relationships[i].id.same(id) {
                assert(relationship_ids(self.logical@)[i as int] == id@);
                return true;
            }
            i += 1;
        }
        proof {
            if relationship_ids(self.logical@).contains(id@) {
                let j = choose|j: int| 0 <= j < relationship_ids(self.logical@).len() && relationship_ids(self.logical@)[j] == id@;
                assert(self.logical.relationships@[j].id@ == id@);
            }
        }
        false
    }

    /// Whether the logical layer has a person with this id.
    pub fn knows_person(&self, id: &Id) -> (r: bool)
        ensures
            r == person_ids(self.logical_view()).contains(id@),
    {
        let mut i: usize = 0;
        while i < self.logical.people.len()
            invariant
                i <= self.logical.people@.len(),
                forall|j: int| 0 <= j < i ==> self.logical.people@[j].id@ != id@,
            decreases self.logical.people.len() - i,
        {
            if self.logical.people[i].id.same(id) {
                assert(person_ids(self.logical@)[i as int] == id@);
                return true;
            }
            i += 1;
        }
        proof {
            if person_ids(self.logical@).contains(id@) {
                let j = choose|j: int| 0 <= j < person_ids(self.logical@).len() && person_ids(self.logical@)[j] == id@;
                assert(self.logical.people@[j].id@ == id@);
            }
        }
        false
    }

    /// The connections that serve one relationship, in their order.
    pub fn serving(&self, relationship: &Id) -> (r: Vec<&'a Connection>)
        ensures
            r@.map_values(|c: &Connection| c@) == serving_spec(self.env_view(), relationship@),
    {
        let ghost pred = |c: ConnectionView| c.serves == relationship@;
        let ghost cs = self.env@.connections;
        let mut out: Vec<&'a Connection> = Vec::new();
        let mut i: usize = 0;
        while i < self.env.connections.len()
            invariant
                i <= self.env.connections@.len(),
                cs == self.env@.connections,
                pred == (|c: ConnectionView| c.serves == relationship@),
                out@.map_values(|c: &Connection| c@) == cs.take(i as int).filter(pred),
            decreases self.env.connections.len() - i,
        {
            proof {
                assert(cs.take(i + 1).drop_last() =~= cs.take(i as int));
                assert(cs[i as int] == self.env.connections@[i as int]@);
                reveal(Seq::filter);
            }
            let ghost before = out@;
            if self.env.connections[i].serves.same(relationship) {
                out.push(&self.env.connections[i]);
                assert(out@.map_values(|c: &Connection| c@) =~= before.map_values(|c: &Connection| c@).push(cs[i as int]));
            }
            i += 1;
        }
        assert(cs.take(i as int) =~= cs);
        out
    }

    /// Whether the recorded ancestors of this instance id include `node`.
    fn chain_contains(&self, inst: &Id, node: &Id) -> (r: bool)
        ensures
            r == (match chain_of(self.env_view(), inst@) {
                Some(c) => c.contains(node@),
                None => false,
            }),
    {
        proof {
            use_type_invariant(self);
        }
        let ghost s = forest_chains(self.env@.nodes, Seq::<Seq<char>>::empty());
        let ghost ids = chain_ids(s);
        proof {
            lemma_last_index(ids, inst@);
        }
        let mut i: usize = self.chains.len();
        while i > 0
            invariant
                i <= self.chains@.len(),
                chains_view(self.chains@) == s,
                s == forest_chains(self.env@.nodes, Seq::<Seq<char>>::empty()),
                ids == chain_ids(s),
                forall|j: int| i <= j < self.chains@.len() ==> ids[j] != inst@,
            decreases i,
        {
            let k = i - 1;
            assert(ids[k as int] == self.chains@[k as int].0@);
            if self.chains[k].0.same(inst) {
                proof {
                    lemma_last_index_unique(ids, inst@, k as int);
                    assert(s[k as int].1 == ids_view(self.chains@[k as int].1@));
                    assert(last_index(chain_ids(s), inst@) == Some(k as int));
                    assert(s == forest_chains(self.env@.nodes, Seq::<Seq<char>>::empty()));
                    assert(chain_of(self.env@, inst@) == Some(s[k as int].1));
                }
                return contains_id(&self.chains[k].1, node);
            }
            i = k;
        }
        false
    }

    /// The instances a wildcard picks out, in order of slug; with `within`, only those
    /// under that node (at any depth).
    #[verifier::rlimit(30)]
    pub fn matching_within(&self, pattern: &str, within: Option<&Id>) -> (r: Vec<&'a ContainerInstance>)
        ensures
            instance_refs_view(r@) == matching(self.env_view(), pattern@, match within {
                Some(n) => Some(n@),
                None => None,
            }),
    {
        proof {
            use_type_invariant(self);
        }
        let ghost w: Option<Seq<char>> = match within {
            Some(n) => Some(n@),
            None => None,
        };
        let ghost e = self.env@;
        let ghost pred = |i: ContainerInstanceView| glob(pattern@, i.slug) && in_scope(e, w, i);
        let ghost s = sort_by_slug(env_instances(e));
        let mut out: Vec<&'a ContainerInstance> = Vec::new();
        let mut i: usize = 0;
        while i < self.by_slug.len()
            invariant
                i <= self.by_slug@.len(),
                e == self.env_view(),
                s == instance_refs_view(self.by_slug@),
                pred == (|i: ContainerInstanceView| glob(pattern@, i.slug) && in_scope(e, w, i)),
                w == (match within {
                    Some(n) => Some(n@),
                    None => None,
                }),
                instance_refs_view(out@) == s.take(i as int).filter(pred),
            decreases self.by_slug.len() - i,
        {
            proof {
                assert(s.take(i + 1).drop_last() =~= s.take(i as int));
                assert(s[i as int] == self.by_slug@[i as int]@);
                reveal(Seq::filter);
            }
            let x = self.by_slug[i];
            let keep = if crate::pattern::matches(pattern, x.slug.as_str()) {
                match within {
                    None => true,
                    Some(node) => self.chain_contains(&x.id, node),
                }
            } else {
                false
            };
            let ghost before = out@;
            if keep {
                out.push(x);
                assert(instance_refs_view(out@) =~= instance_refs_view(before).push(x@));
            }
            i += 1;
        }
        assert(s.take(i as int) =~= s);
        out
    }
}


proof fn lemma_insert_members(s: Seq<ContainerInstanceView>, x: ContainerInstanceView)
    ensures
        insert_by_slug(s, x).to_set() == s.to_set().insert(x),
    decreases s.len(),
{
    let r = insert_by_slug(s, x);
    if s.len() == 0 {
        assert(r =~= seq![x]);
        assert(r.to_set() =~= s.to_set().insert(x)) by {
            assert(r[0] == x);
        }
    } else if seq_lt(x.slug, s.last().slug) {
        let d = s.drop_last();
        lemma_insert_members(d, x);
        let rd = insert_by_slug(d, x);
        assert(r == rd.push(s.last()));
        assert(r.to_set() =~= s.to_set().insert(x)) by {
            assert forall|z: ContainerInstanceView| r.to_set().contains(z) implies s.to_set().insert(x).contains(z) by {
                let k = choose|k: int| 0 <= k < r.len() && r[k] == z;
                if k < rd.len() {
                    assert(rd.to_set().contains(z)) by { assert(rd[k] == z); }
                    if z != x {
                        let q = choose|q: int| 0 <= q < d.len() && d[q] == z;
                        assert(s[q] == z);
                    }
                } else {
                    assert(s[s.len() - 1] == z);
                }
            }
            assert forall|z: ContainerInstanceView| s.to_set().insert(x).contains(z) implies r.to_set().contains(z) by {
                if z == x {
                    assert(rd.to_set().contains(x));
                    let k = choose|k: int| 0 <= k < rd.len() && rd[k] == x;
                    assert(r[k] == x);
                } else {
                    let q = choose|q: int| 0 <= q < s.len() && s[q] == z;
                    if q == s.len() - 1 {
                        assert(r[rd.len() as int] == z);
                    } else {
                        assert(d[q] == z);
                        assert(rd.to_set().contains(z));
                        let k = choose|k: int| 0 <= k < rd.len() && rd[k] == z;
                        assert(r[k] == z);
                    }
                }
            }
        }
    } else {
        assert(r == s.push(x));
        assert(r.to_set() =~= s.to_set().insert(x)) by {
            assert forall|z: ContainerInstanceView| r.to_set().contains(z) implies s.to_set().insert(x).contains(z) by {
                let k = choose|k: int| 0 <= k < r.len() && r[k] == z;
                if k < s.len() {
                    assert(s[k] == z);
                }
            }
            assert forall|z: ContainerInstanceView| s.to_set().insert(x).contains(z) implies r.to_set().contains(z) by {
                if z == x {
                    assert(r[s.len() as int] == x);
                } else {
                    let q = choose|q: int| 0 <= q < s.len() && s[q] == z;
                    assert(r[q] == z);
                }
            }
        }
    }
}

proof fn lemma_sort_members(s: Seq<ContainerInstanceView>)
    ensures
        sort_by_slug(s).to_set() == s.to_set(),
    decreases s.len(),
{
    if s.len() > 0 {
        let d = s.drop_last();
        lemma_sort_members(d);
        lemma_insert_members(sort_by_slug(d), s.last());
        assert(s.to_set() =~= d.to_set().insert(s.last())) by {
            assert forall|z: ContainerInstanceView| s.to_set().contains(z) implies d.to_set().insert(s.last()).contains(z) by {
                let k = choose|k: int| 0 <= k < s.len() && s[k] == z;
                if k < d.len() {
                    assert(d[k] == z);
                }
            }
            assert forall|z: ContainerInstanceView| d.to_set().insert(s.last()).contains(z) implies s.to_set().contains(z) by {
                if z == s.last() {
                    assert(s[s.len() - 1] == z);
                } else {
                    let k = choose|k: int| 0 <= k < d.len() && d[k] == z;
                    assert(s[k] == z);
                }
            }
        }
    } else {
        assert(sort_by_slug(s).to_set() =~= s.to_set());
    }
}

proof fn lemma_filter_set(a: Seq<ContainerInstanceView>, keep: spec_fn(ContainerInstanceView) -> bool)
    ensures
        a.filter(keep).to_set() == a.to_set().filter(keep),
{
    assert forall|z: ContainerInstanceView| a.filter(keep).to_set().contains(z) <==> a.to_set().filter(keep).contains(z) by {
        if a.filter(keep).to_set().contains(z) {
            assert(a.filter(keep).contains(z));
            a.lemma_filter_contains_rev(keep, z);
            let k = choose|k: int| 0 <= k < a.filter(keep).len() && a.filter(keep)[k] == z;
            a.lemma_filter_pred(keep, k);
        }
        if a.to_set().filter(keep).contains(z) {
            let k = choose|k: int| 0 <= k < a.len() && a[k] == z;
            a.lemma_filter_contains(keep, k);
        }
    }
    assert(a.filter(keep).to_set() =~= a.to_set().filter(keep));
}

/// Without a scope, the instances a wildcard picks out through the index are the ones
/// [`Environment::instances_matching`] picks out: the same instances, only ordered by slug.
pub proof fn lemma_matching_without_scope(e: EnvironmentView, pattern: Seq<char>)
    ensures
        matching(e, pattern, None).to_set() == env_instances(e).filter(crate::environment::matching_slug(pattern)).to_set(),
{
    let keep = |i: ContainerInstanceView| glob(pattern, i.slug) && in_scope(e, None, i);
    let s = env_instances(e);
    lemma_sort_members(s);
    lemma_filter_set(sort_by_slug(s), keep);
    lemma_filter_set(s, crate::environment::matching_slug(pattern));
    assert(sort_by_slug(s).to_set().filter(keep) =~= s.to_set().filter(crate::environment::matching_slug(pattern)));
}

} // verus!
