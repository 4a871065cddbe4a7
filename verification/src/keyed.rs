//! Lists of elements found by id.
//!
//! Most edits find the first element of a list with some id and replace it, remove
//! every element with it, or add one. [`Keyed`] says where an element keeps its id;
//! the functions here do the finding and changing once for every kind of element.

use vstd::prelude::*;
use crate::duplicate::{Duplicate, views};
use crate::environment::{Connection, ConnectionView, Endpoint, EndpointView, Environment, EnvironmentView,
    InfrastructureNode, InfrastructureNodeView, SoftwareSystemInstance, SoftwareSystemInstanceView};
use crate::id::Id;
use crate::logical::{Container, ContainerView, EndpointDef, EndpointDefView, Person, PersonView, Relationship,
    RelationshipView, SoftwareSystem, SoftwareSystemView, first_index, lemma_first_index, lemma_first_index_unique};

verus! {

/// An element with an id.
pub trait Keyed: Duplicate {
    spec fn key_of(v: Self::V) -> Seq<char>;

    fn key(&self) -> (r: &Id)
        ensures
            r@ == Self::key_of(self@);
}

/// An element with an id and a display name.
pub trait Named: Keyed {
    spec fn name_of(v: Self::V) -> Seq<char>;

    fn name(&self) -> (r: &String)
        ensures
            r@ == Self::name_of(self@);
}

pub open spec fn keys<T: Keyed>(s: Seq<T::V>) -> Seq<Seq<char>> {
    s.map_values(|v: T::V| T::key_of(v))
}

pub open spec fn pairs<T: Named>(s: Seq<T::V>) -> Seq<(Seq<char>, Seq<char>)> {
    s.map_values(|v: T::V| (T::key_of(v), T::name_of(v)))
}

pub open spec fn not_key<T: Keyed>(id: Seq<char>) -> spec_fn(T::V) -> bool {
    |v: T::V| T::key_of(v) != id
}

/// The list after adding `x` at the end (`add`), or putting it in place of the first
/// element with its id (otherwise; nothing changes when there is none).
pub open spec fn put<T: Keyed>(s: Seq<T::V>, x: T::V, add: bool) -> Seq<T::V> {
    if add {
        s.push(x)
    } else {
        match first_index(keys::<T>(s), T::key_of(x)) {
            Some(k) => s.update(k, x),
            None => s,
        }
    }
}

/// The place of the first element with this id.
pub fn find_key<T: Keyed>(v: &Vec<T>, id: &Id) -> (r: Option<usize>)
    ensures
        match first_index(keys::<T>(views(v@)), id@) {
            Some(k) => r matches Some(x) && x as int == k,
            None => r is None,
        },
{
    let ghost ks = keys::<T>(views(v@));
    proof {
        lemma_first_index(ks, id@);
    }
    let mut i: usize = 0;
    while i < v.len()
        invariant
            i <= v@.len(),
            ks == keys::<T>(views(v@)),
            forall|j: int| 0 <= j < i ==> ks[j] != id@,
        decreases v.len() - i,
    {
        assert(ks[i as int] == T::key_of(v@[i as int]@));
        if v[i].key().same(id) {
            proof {
                lemma_first_index_unique(ks, id@, i as int);
            }
            return Some(i);
        }
        i += 1;
    }
    None
}

/// Removes every element with this id.
pub fn retain_key<T: Keyed>(v: &mut Vec<T>, id: &Id)
    ensures
        views(final(v)@) == views(old(v)@).filter(not_key::<T>(id@)),
{
    let ghost s = views(v@);
    let ghost pr = not_key::<T>(id@);
    let mut i: usize = 0;
    let ghost mut j: int = 0;
    while i < v.len()
        invariant
            s == views(old(v)@),
            pr == not_key::<T>(id@),
            0 <= j <= s.len(),
            i <= v@.len(),
            views(v@) == s.take(j).filter(pr) + s.skip(j),
            i == s.take(j).filter(pr).len(),
        decreases s.len() - j,
    {
        proof {
            assert(s.take(j + 1).drop_last() =~= s.take(j));
            reveal(Seq::filter);
            assert(views(v@)[i as int] == s[j]);
            assert(s.skip(j) =~= seq![s[j]] + s.skip(j + 1));
        }
        if v[i].key().same(id) {
            let ghost before = v@;
            let _ = v.remove(i);
            proof {
                assert(s.take(j + 1).filter(pr) == s.take(j).filter(pr));
                assert(views(v@) =~= views(before).remove(i as int));
                assert(views(v@) =~= s.take(j + 1).filter(pr) + s.skip(j + 1));
            }
        } else {
            proof {
                assert(s.take(j + 1).filter(pr) == s.take(j).filter(pr).push(s[j]));
                assert(views(v@) =~= s.take(j + 1).filter(pr) + s.skip(j + 1));
            }
            i += 1;
        }
        proof {
            j = j + 1;
        }
    }
    proof {
        assert(s.skip(j).len() == 0 || i < v@.len());
        if j < s.len() {
            assert(views(v@).len() > i);
        }
        assert(j == s.len());
        assert(s.take(j) =~= s);
        assert(views(v@) =~= s.filter(pr));
    }
}

/// Adds a copy of `x` at the end, or puts it in place of the first element with its id.
pub fn put_key<T: Keyed>(v: &mut Vec<T>, x: &T, add: bool)
    ensures
        views(final(v)@) == put::<T>(views(old(v)@), x@, add),
{
    let ghost s = views(v@);
    if add {
        let c = x.duplicate();
        v.push(c);
        assert(views(v@) =~= s.push(x@));
        return;
    }
    proof {
        lemma_first_index(keys::<T>(s), T::key_of(x@));
    }
    match find_key(v, x.key()) {
        Some(k) => {
            let c = x.duplicate();
            v.set(k, c);
            assert(views(v@) =~= s.update(k as int, x@));
        },
        None => {},
    }
}

pub open spec fn entries_view(s: Seq<(Id, String)>) -> Seq<(Seq<char>, Seq<char>)> {
    s.map_values(|x: (Id, String)| (x.0@, x.1@))
}

/// Every element's id and name, in order.
pub fn pairs_of<T: Named>(v: &Vec<T>) -> (r: Vec<(Id, String)>)
    ensures
        entries_view(r@) == pairs::<T>(views(v@)),
{
    let ghost s = pairs::<T>(views(v@));
    let mut out: Vec<(Id, String)> = Vec::new();
    let mut i: usize = 0;
    while i < v.len()
        invariant
            i <= v@.len(),
            s == pairs::<T>(views(v@)),
            entries_view(out@) == s.take(i as int),
        decreases v.len() - i,
    {
        let ghost before = out@;
        out.push((v[i].key().copy(), v[i].name().clone()));
        proof {
            assert(s[i as int] == (T::key_of(v@[i as int]@), T::name_of(v@[i as int]@)));
            assert(entries_view(out@) =~= entries_view(before).push(s[i as int]));
            assert(s.take(i + 1) =~= s.take(i as int).push(s[i as int]));
        }
        i += 1;
    }
    assert(s.take(i as int) =~= s);
    out
}

impl Keyed for Person {
    open spec fn key_of(v: PersonView) -> Seq<char> {
        v.id
    }

    fn key(&self) -> (r: &Id) {
        &self.id
    }
}

impl Named for Person {
    open spec fn name_of(v: PersonView) -> Seq<char> {
        v.slug
    }

    fn name(&self) -> (r: &String) {
        &self.slug
    }
}

impl Keyed for SoftwareSystem {
    open spec fn key_of(v: SoftwareSystemView) -> Seq<char> {
        v.id
    }

    fn key(&self) -> (r: &Id) {
        &self.id
    }
}

impl Named for SoftwareSystem {
    open spec fn name_of(v: SoftwareSystemView) -> Seq<char> {
        v.slug
    }

    fn name(&self) -> (r: &String) {
        &self.slug
    }
}

impl Keyed for Container {
    open spec fn key_of(v: ContainerView) -> Seq<char> {
        v.id
    }

    fn key(&self) -> (r: &Id) {
        &self.id
    }
}

impl Named for Container {
    open spec fn name_of(v: ContainerView) -> Seq<char> {
        v.slug
    }

    fn name(&self) -> (r: &String) {
        &self.slug
    }
}

impl Keyed for EndpointDef {
    open spec fn key_of(v: EndpointDefView) -> Seq<char> {
        v.id
    }

    fn key(&self) -> (r: &Id) {
        &self.id
    }
}

impl Named for EndpointDef {
    open spec fn name_of(v: EndpointDefView) -> Seq<char> {
        v.slug
    }

    fn name(&self) -> (r: &String) {
        &self.slug
    }
}

impl Keyed for Relationship {
    open spec fn key_of(v: RelationshipView) -> Seq<char> {
        v.id
    }

    fn key(&self) -> (r: &Id) {
        &self.id
    }
}

impl Named for Relationship {
    open spec fn name_of(v: RelationshipView) -> Seq<char> {
        v.slug
    }

    fn name(&self) -> (r: &String) {
        &self.slug
    }
}

impl Keyed for Environment {
    open spec fn key_of(v: EnvironmentView) -> Seq<char> {
        v.id
    }

    fn key(&self) -> (r: &Id) {
        &self.id
    }
}

impl Named for Environment {
    open spec fn name_of(v: EnvironmentView) -> Seq<char> {
        v.slug
    }

    fn name(&self) -> (r: &String) {
        &self.slug
    }
}

impl Keyed for InfrastructureNode {
    open spec fn key_of(v: InfrastructureNodeView) -> Seq<char> {
        v.id
    }

    fn key(&self) -> (r: &Id) {
        &self.id
    }
}

impl Named for InfrastructureNode {
    open spec fn name_of(v: InfrastructureNodeView) -> Seq<char> {
        v.slug
    }

    fn name(&self) -> (r: &String) {
        &self.slug
    }
}

impl Keyed for Endpoint {
    open spec fn key_of(v: EndpointView) -> Seq<char> {
        v.id
    }

    fn key(&self) -> (r: &Id) {
        &self.id
    }
}

impl Named for Endpoint {
    open spec fn name_of(v: EndpointView) -> Seq<char> {
        v.slug
    }

    fn name(&self) -> (r: &String) {
        &self.slug
    }
}

impl Keyed for SoftwareSystemInstance {
    open spec fn key_of(v: SoftwareSystemInstanceView) -> Seq<char> {
        v.id
    }

    fn key(&self) -> (r: &Id) {
        &self.id
    }
}

impl Named for SoftwareSystemInstance {
    open spec fn name_of(v: SoftwareSystemInstanceView) -> Seq<char> {
        v.slug
    }

    fn name(&self) -> (r: &String) {
        &self.slug
    }
}

impl Keyed for Connection {
    open spec fn key_of(v: ConnectionView) -> Seq<char> {
        v.id
    }

    fn key(&self) -> (r: &Id) {
        &self.id
    }
}

} // verus!
