//! Changing one place of a deployment tree.
//!
//! Many edits change the first node of a tree, in depth-first order, where some
//! change applies: rename a machine, hang a machine or an instance under a parent,
//! take an instance out, set an address or a flag. [`NodeOp`] says what the change
//! does to one node; [`forest_apply`] finds the first place and makes it there.

use vstd::prelude::*;
use crate::environment::{ContainerInstance, ContainerInstanceView, DeploymentNode, DeploymentNodeView, EndpointView,
    NodeKind, nodes_view, lemma_children_view};
use crate::id::Id;
use crate::logical::{first_match, lemma_first_match, lemma_first_match_unique};

verus! {

/// A change to one node, ignoring what lies below it.
pub trait NodeOp {
    /// What the change does to one node: the node after it, or `None` when the
    /// change does not apply there.
    spec fn step(&self) -> spec_fn(DeploymentNodeView) -> Option<DeploymentNodeView>;

    fn apply_local(&self, n: &mut DeploymentNode) -> (r: bool)
        ensures
            match (self.step())(old(n)@) {
                Some(m) => r && final(n)@ == m,
                None => !r && final(n)@ == old(n)@,
            };
}

pub open spec fn with_children(n: DeploymentNodeView, children: Seq<DeploymentNodeView>) -> DeploymentNodeView {
    DeploymentNodeView { id: n.id, slug: n.slug, kind: n.kind, children, instances: n.instances, memo: n.memo }
}

pub open spec fn with_instances(n: DeploymentNodeView, instances: Seq<ContainerInstanceView>) -> DeploymentNodeView {
    DeploymentNodeView { id: n.id, slug: n.slug, kind: n.kind, children: n.children, instances, memo: n.memo }
}

/// The tree after the change at its first place, depth first (the node itself, then
/// its children in order); `None` when it applies nowhere.
pub open spec fn tree_op(op: spec_fn(DeploymentNodeView) -> Option<DeploymentNodeView>, n: DeploymentNodeView) -> Option<DeploymentNodeView>
    decreases n,
{
    match op(n) {
        Some(m) => Some(m),
        None => match forest_op(op, n.children) {
            Some(cs) => Some(with_children(n, cs)),
            None => None,
        },
    }
}

pub open spec fn forest_op(op: spec_fn(DeploymentNodeView) -> Option<DeploymentNodeView>, s: Seq<DeploymentNodeView>) -> Option<Seq<DeploymentNodeView>>
    decreases s,
{
    if s.len() == 0 {
        None
    } else {
        match tree_op(op, s[0]) {
            Some(m) => Some(s.update(0, m)),
            None => match forest_op(op, s.subrange(1, s.len() as int)) {
                Some(r) => Some(seq![s[0]] + r),
                None => None,
            },
        }
    }
}

pub open spec fn tree_size(n: DeploymentNodeView) -> nat
    decreases n,
{
    1 + forest_size(n.children)
}

pub open spec fn forest_size(s: Seq<DeploymentNodeView>) -> nat
    decreases s,
{
    if s.len() == 0 {
        0
    } else {
        tree_size(s[0]) + forest_size(s.subrange(1, s.len() as int))
    }
}

pub proof fn lemma_size_of_member(s: Seq<DeploymentNodeView>, i: int)
    requires
        0 <= i < s.len(),
    ensures
        tree_size(s[i]) <= forest_size(s),
    decreases i,
{
    if i > 0 {
        lemma_size_of_member(s.subrange(1, s.len() as int), i - 1);
    }
}

proof fn lemma_forest_op_at(op: spec_fn(DeploymentNodeView) -> Option<DeploymentNodeView>, s: Seq<DeploymentNodeView>, j: int)
    requires
        0 <= j < s.len(),
        forall|k: int| 0 <= k < j ==> tree_op(op, #[trigger] s[k]) is None,
        tree_op(op, s[j]) is Some,
    ensures
        forest_op(op, s) == Some(s.update(j, tree_op(op, s[j])->Some_0)),
    decreases j,
{
    if j > 0 {
        let t = s.subrange(1, s.len() as int);
        assert forall|k: int| 0 <= k < j - 1 implies tree_op(op, #[trigger] t[k]) is None by {
            assert(t[k] == s[k + 1]);
        }
        assert(t[j - 1] == s[j]);
        lemma_forest_op_at(op, t, j - 1);
        assert(tree_op(op, s[0]) is None);
        assert(seq![s[0]] + t.update(j - 1, tree_op(op, s[j])->Some_0) =~= s.update(j, tree_op(op, s[j])->Some_0));
    }
}

proof fn lemma_forest_op_none(op: spec_fn(DeploymentNodeView) -> Option<DeploymentNodeView>, s: Seq<DeploymentNodeView>)
    requires
        forall|k: int| 0 <= k < s.len() ==> tree_op(op, #[trigger] s[k]) is None,
    ensures
        forest_op(op, s) is None,
    decreases s.len(),
{
    if s.len() > 0 {
        let t = s.subrange(1, s.len() as int);
        assert forall|k: int| 0 <= k < t.len() implies tree_op(op, #[trigger] t[k]) is None by {
            assert(t[k] == s[k + 1]);
        }
        lemma_forest_op_none(op, t);
        assert(tree_op(op, s[0]) is None);
    }
}

/// Makes the change at the first place in the tree where it applies.
pub fn tree_apply<O: NodeOp>(op: &O, n: &mut DeploymentNode) -> (r: bool)
    ensures
        match tree_op(op.step(), old(n)@) {
            Some(m) => r && final(n)@ == m,
            None => !r && final(n)@ == old(n)@,
        },
    decreases tree_size(old(n)@), 0nat,
{
    if op.apply_local(n) {
        return true;
    }
    proof {
        lemma_children_view(*n);
    }
    let found = forest_apply(op, &mut n.children);
    proof {
        lemma_children_view(*n);
    }
    if found {
        assert(n@ =~~= with_children(old(n)@, n@.children));
    } else {
        assert(n@ =~~= old(n)@);
    }
    found
}

/// Makes the change at the first place, in order, in a list of trees.
pub fn forest_apply<O: NodeOp>(op: &O, nodes: &mut Vec<DeploymentNode>) -> (r: bool)
    ensures
        match forest_op(op.step(), nodes_view(old(nodes)@)) {
            Some(s) => r && nodes_view(final(nodes)@) == s,
            None => !r && final(nodes)@ == old(nodes)@,
        },
    decreases forest_size(nodes_view(old(nodes)@)), 1nat,
{
    let ghost s = nodes_view(nodes@);
    let mut i: usize = 0;
    while i < nodes.len()
        invariant
            i <= nodes@.len(),
            nodes@ == old(nodes)@,
            s == nodes_view(old(nodes)@),
            forall|k: int| 0 <= k < i ==> tree_op(op.step(), #[trigger] s[k]) is None,
        decreases nodes.len() - i,
    {
        let mut m = nodes[i].copy();
        proof {
            assert(s[i as int] == m@);
            lemma_size_of_member(s, i as int);
        }
        if tree_apply(op, &mut m) {
            let ghost mv = m@;
            nodes.set(i, m);
            proof {
                lemma_forest_op_at(op.step(), s, i as int);
                assert(nodes_view(nodes@) =~= s.update(i as int, mv));
            }
            return true;
        }
        i += 1;
    }
    proof {
        lemma_forest_op_none(op.step(), s);
    }
    false
}

// ---- the changes ----

/// Rename a machine and set its kind; its children and instances stay.
pub struct SetNodeFields {
    pub id: Id,
    pub slug: String,
    pub kind: NodeKind,
}

pub open spec fn set_node_fields_step(id: Seq<char>, slug: Seq<char>, kind: NodeKind) -> spec_fn(DeploymentNodeView) -> Option<DeploymentNodeView> {
    |n: DeploymentNodeView|
        if n.id == id {
            Some(DeploymentNodeView { id: n.id, slug, kind, children: n.children, instances: n.instances, memo: n.memo })
        } else {
            None
        }
}

impl NodeOp for SetNodeFields {
    open spec fn step(&self) -> spec_fn(DeploymentNodeView) -> Option<DeploymentNodeView> {
        set_node_fields_step(self.id@, self.slug@, self.kind)
    }

    fn apply_local(&self, n: &mut DeploymentNode) -> (r: bool) {
        if n.id.same(&self.id) {
            proof {
                lemma_children_view(*n);
            }
            n.slug = self.slug.clone();
            n.kind = self.kind;
            proof {
                lemma_children_view(*n);
            }
            return true;
        }
        false
    }
}

/// Hang a machine under the parent with this id.
pub struct AddChild {
    pub parent: Id,
    pub child: DeploymentNode,
}

pub open spec fn add_child_step(parent: Seq<char>, child: DeploymentNodeView) -> spec_fn(DeploymentNodeView) -> Option<DeploymentNodeView> {
    |n: DeploymentNodeView|
        if n.id == parent {
            Some(with_children(n, n.children.push(child)))
        } else {
            None
        }
}

impl NodeOp for AddChild {
    open spec fn step(&self) -> spec_fn(DeploymentNodeView) -> Option<DeploymentNodeView> {
        add_child_step(self.parent@, self.child@)
    }

    fn apply_local(&self, n: &mut DeploymentNode) -> (r: bool) {
        if n.id.same(&self.parent) {
            proof {
                lemma_children_view(*n);
            }
            let ghost before = n.children@;
            n.children.push(self.child.copy());
            proof {
                lemma_children_view(*n);
                assert(nodes_view(n.children@) =~= nodes_view(before).push(self.child@));
            }
            return true;
        }
        false
    }
}

pub open spec fn instance_is(id: Seq<char>) -> spec_fn(ContainerInstanceView) -> bool {
    |i: ContainerInstanceView| i.id == id
}

/// Take out the first instance with this id.
pub struct TakeInstance {
    pub id: Id,
}

pub open spec fn take_instance_step(id: Seq<char>) -> spec_fn(DeploymentNodeView) -> Option<DeploymentNodeView> {
    |n: DeploymentNodeView|
        match first_match(n.instances, instance_is(id)) {
            Some(k) => Some(with_instances(n, n.instances.remove(k))),
            None => None,
        }
}

impl NodeOp for TakeInstance {
    open spec fn step(&self) -> spec_fn(DeploymentNodeView) -> Option<DeploymentNodeView> {
        take_instance_step(self.id@)
    }

    fn apply_local(&self, n: &mut DeploymentNode) -> (r: bool) {
        proof {
            lemma_children_view(*n);
            lemma_first_match(n@.instances, instance_is(self.id@));
        }
        let mut k: usize = 0;
        while k < n.instances.len()
            invariant
                k <= n.instances@.len(),
                *n == *old(n),
                n@.instances == crate::environment::instances_view(n.instances@),
                forall|j: int| 0 <= j < k ==> !(instance_is(self.id@))(#[trigger] n@.instances[j]),
            decreases n.instances.len() - k,
        {
            assert(n@.instances[k as int] == n.instances@[k as int]@);
            if n.instances[k].id.same(&self.id) {
                proof {
                    lemma_first_match_unique(n@.instances, instance_is(self.id@), k as int);
                }
                let ghost before = n.instances@;
                let _ = n.instances.remove(k);
                proof {
                    lemma_children_view(*n);
                    assert(crate::environment::instances_view(n.instances@) =~= crate::environment::instances_view(before).remove(k as int));
                }
                return true;
            }
            k += 1;
        }
        false
    }
}

/// Put an instance on the machine with this id.
pub struct AddInstance {
    pub host: Id,
    pub instance: ContainerInstance,
}

pub open spec fn add_instance_step(host: Seq<char>, instance: ContainerInstanceView) -> spec_fn(DeploymentNodeView) -> Option<DeploymentNodeView> {
    |n: DeploymentNodeView|
        if n.id == host {
            Some(with_instances(n, n.instances.push(instance)))
        } else {
            None
        }
}

impl NodeOp for AddInstance {
    open spec fn step(&self) -> spec_fn(DeploymentNodeView) -> Option<DeploymentNodeView> {
        add_instance_step(self.host@, self.instance@)
    }

    fn apply_local(&self, n: &mut DeploymentNode) -> (r: bool) {
        if n.id.same(&self.host) {
            proof {
                lemma_children_view(*n);
            }
            let ghost before = n.instances@;
            n.instances.push(self.instance.copy());
            proof {
                lemma_children_view(*n);
                assert(crate::environment::instances_view(n.instances@) =~= crate::environment::instances_view(before).push(self.instance@));
            }
            return true;
        }
        false
    }
}

/// Set the `standalone` flag of the first instance with this id.
pub struct SetStandalone {
    pub id: Id,
    pub standalone: bool,
}

pub open spec fn with_standalone(i: ContainerInstanceView, standalone: bool) -> ContainerInstanceView {
    ContainerInstanceView { id: i.id, slug: i.slug, container: i.container, endpoints: i.endpoints, standalone, memo: i.memo }
}

pub open spec fn standalone_step(id: Seq<char>, standalone: bool) -> spec_fn(DeploymentNodeView) -> Option<DeploymentNodeView> {
    |n: DeploymentNodeView|
        match first_match(n.instances, instance_is(id)) {
            Some(k) => Some(with_instances(n, n.instances.update(k, with_standalone(n.instances[k], standalone)))),
            None => None,
        }
}

impl NodeOp for SetStandalone {
    open spec fn step(&self) -> spec_fn(DeploymentNodeView) -> Option<DeploymentNodeView> {
        standalone_step(self.id@, self.standalone)
    }

    fn apply_local(&self, n: &mut DeploymentNode) -> (r: bool) {
        proof {
            lemma_children_view(*n);
            lemma_first_match(n@.instances, instance_is(self.id@));
        }
        let mut k: usize = 0;
        while k < n.instances.len()
            invariant
                k <= n.instances@.len(),
                *n == *old(n),
                n@.instances == crate::environment::instances_view(n.instances@),
                forall|j: int| 0 <= j < k ==> !(instance_is(self.id@))(#[trigger] n@.instances[j]),
            decreases n.instances.len() - k,
        {
            assert(n@.instances[k as int] == n.instances@[k as int]@);
            if n.instances[k].id.same(&self.id) {
                proof {
                    lemma_first_match_unique(n@.instances, instance_is(self.id@), k as int);
                }
                let mut inst = n.instances[k].copy();
                inst.standalone = self.standalone;
                let ghost before = n.instances@;
                let ghost iv = inst@;
                n.instances.set(k, inst);
                proof {
                    lemma_children_view(*n);
                    assert(crate::environment::instances_view(n.instances@) =~= crate::environment::instances_view(before).update(k as int, iv));
                }
                return true;
            }
            k += 1;
        }
        false
    }
}

pub open spec fn endpoint_is(id: Seq<char>) -> spec_fn(EndpointView) -> bool {
    |e: EndpointView| e.id == id
}

pub open spec fn has_endpoint(id: Seq<char>) -> spec_fn(ContainerInstanceView) -> bool {
    |i: ContainerInstanceView| exists|j: int| 0 <= j < i.endpoints.len() && i.endpoints[j].id == id
}

pub open spec fn with_address(e: EndpointView, address: Option<Seq<char>>) -> EndpointView {
    EndpointView { id: e.id, slug: e.slug, def: e.def, protocol: e.protocol, address }
}

/// The endpoints with the first one of this id given the address.
pub open spec fn set_address_in(eps: Seq<EndpointView>, id: Seq<char>, address: Option<Seq<char>>) -> Seq<EndpointView> {
    match first_match(eps, endpoint_is(id)) {
        Some(j) => eps.update(j, with_address(eps[j], address)),
        None => eps,
    }
}

/// Set the address of the first endpoint with this id, on the first instance that has one.
pub struct SetAddress {
    pub id: Id,
    pub address: Option<String>,
}

pub open spec fn set_address_step(id: Seq<char>, address: Option<Seq<char>>) -> spec_fn(DeploymentNodeView) -> Option<DeploymentNodeView> {
    |n: DeploymentNodeView|
        match first_match(n.instances, has_endpoint(id)) {
            Some(k) => {
                let i = n.instances[k];
                Some(with_instances(n, n.instances.update(k, ContainerInstanceView {
                    id: i.id,
                    slug: i.slug,
                    container: i.container,
                    endpoints: set_address_in(i.endpoints, id, address),
                    standalone: i.standalone,
                    memo: i.memo,
                })))
            },
            None => None,
        }
}

impl NodeOp for SetAddress {
    open spec fn step(&self) -> spec_fn(DeploymentNodeView) -> Option<DeploymentNodeView> {
        set_address_step(self.id@, crate::environment::opt_text_view(self.address))
    }

    fn apply_local(&self, n: &mut DeploymentNode) -> (r: bool) {
        proof {
            lemma_children_view(*n);
            lemma_first_match(n@.instances, has_endpoint(self.id@));
        }
        let mut k: usize = 0;
        while k < n.instances.len()
            invariant
                k <= n.instances@.len(),
                *n == *old(n),
                n@.instances == crate::environment::instances_view(n.instances@),
                forall|j: int| 0 <= j < k ==> !(has_endpoint(self.id@))(#[trigger] n@.instances[j]),
            decreases n.instances.len() - k,
        {
            assert(n@.instances[k as int] == n.instances@[k as int]@);
            let mut inst = n.instances[k].copy();
            let ghost before_eps = inst.endpoints@;
            let hit = set_endpoint_address(&mut inst.endpoints, &self.id, &self.address);
            proof {
                let iv = n@.instances[k as int];
                assert(crate::environment::endpoints_view(before_eps) == iv.endpoints);
                if hit {
                    let j = choose|j: int| 0 <= j < before_eps.len() && before_eps[j].id@ == self.id@;
                    assert(iv.endpoints[j] == before_eps[j]@);
                    assert(iv.endpoints[j].id == self.id@);
                } else {
                    assert forall|j: int| 0 <= j < iv.endpoints.len() implies iv.endpoints[j].id != self.id@ by {
                        assert(iv.endpoints[j] == before_eps[j]@);
                    }
                }
            }
            if hit {
                proof {
                    lemma_first_match_unique(n@.instances, has_endpoint(self.id@), k as int);
                }
                let ghost before = n.instances@;
                let ghost iv = inst@;
                n.instances.set(k, inst);
                proof {
                    lemma_children_view(*n);
                    assert(crate::environment::instances_view(n.instances@) =~= crate::environment::instances_view(before).update(k as int, iv));
                }
                return true;
            }
            k += 1;
        }
        false
    }
}

/// Sets the address of the first endpoint with this id; whether there was one.
pub fn set_endpoint_address(eps: &mut Vec<crate::environment::Endpoint>, id: &Id, address: &Option<String>) -> (r: bool)
    ensures
        r == exists|j: int| 0 <= j < old(eps)@.len() && old(eps)@[j].id@ == id@,
        crate::environment::endpoints_view(final(eps)@) == set_address_in(
            crate::environment::endpoints_view(old(eps)@),
            id@,
            crate::environment::opt_text_view(*address),
        ),
{
    let ghost v = crate::environment::endpoints_view(eps@);
    proof {
        lemma_first_match(v, endpoint_is(id@));
    }
    let mut j: usize = 0;
    while j < eps.len()
        invariant
            j <= eps@.len(),
            eps@ == old(eps)@,
            v == crate::environment::endpoints_view(old(eps)@),
            forall|k: int| 0 <= k < j ==> !(endpoint_is(id@))(#[trigger] v[k]),
        decreases eps.len() - j,
    {
        assert(v[j as int] == eps@[j as int]@);
        if eps[j].id.same(id) {
            proof {
                lemma_first_match_unique(v, endpoint_is(id@), j as int);
            }
            let mut e = eps[j].copy();
            e.address = crate::environment::copy_opt_text(address);
            let ghost ev = e@;
            eps.set(j, e);
            proof {
                assert(crate::environment::endpoints_view(eps@) =~= v.update(j as int, ev));
            }
            return true;
        }
        j += 1;
    }
    proof {
        if exists|k: int| 0 <= k < old(eps)@.len() && old(eps)@[k].id@ == id@ {
            let k = choose|k: int| 0 <= k < old(eps)@.len() && old(eps)@[k].id@ == id@;
            assert(v[k] == old(eps)@[k]@);
        }
    }
    false
}

} // verus!
