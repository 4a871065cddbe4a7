//! How many lines one connection draws.
//!
//! A wildcard connection (`apache-*` to `gateway-*`, three machines each) is one
//! [`Connection`] in the model, but it claims that every apache reaches every gateway;
//! lint's reachability builds its graph the same way. So the diagram draws every
//! pair. This answers only "what does it reach now"; what is missing is lint's job.

use vstd::prelude::*;
use crate::Project;
use crate::environment::{Connection, ConnectionKind, ConnectionView, ContainerInstanceView, Endpointing,
    EndpointingView, Environment, EnvironmentView, InstanceRef, InstanceRefView, instance_refs_view};
use crate::id::Id;
use crate::index::{EnvIndex, matching};

verus! {

/// One line on the diagram. `connection` repeats: a wildcard connection grows several.
#[derive(Debug, Clone, PartialEq, Eq)]
pub struct Link {
    /// The connection the line belongs to.
    pub connection: Id,
    /// The shape it starts at.
    pub from: Id,
    /// The shape it ends at.
    pub to: Id,
    /// Whether it starts at a person: people do not live in the environment, so the
    /// diagram adds a shape for them.
    pub from_person: bool,
    /// A fallback line is drawn so that it can be told apart.
    pub kind: ConnectionKind,
    /// The text on the line.
    pub purpose: String,
}

pub struct LinkView {
    pub connection: Seq<char>,
    pub from: Seq<char>,
    pub to: Seq<char>,
    pub from_person: bool,
    pub kind: ConnectionKind,
    pub purpose: Seq<char>,
}

impl View for Link {
    type V = LinkView;

    open spec fn view(&self) -> LinkView {
        LinkView {
            connection: self.connection@,
            from: self.from@,
            to: self.to@,
            from_person: self.from_person,
            kind: self.kind,
            purpose: self.purpose@,
        }
    }
}

pub open spec fn links_view(s: Seq<Link>) -> Seq<LinkView> {
    s.map_values(|l: Link| l@)
}

/// The shapes one end of a connection reaches, each with whether it is a person.
pub open spec fn ends_spec(e: EnvironmentView, side: EndpointingView) -> Seq<(Seq<char>, bool)> {
    match side {
        EndpointingView::Instance { target, .. } => match target {
            InstanceRefView::One(id) => seq![(id, false)],
            InstanceRefView::Pattern { slug_pattern, within, .. } => matching(e, slug_pattern, within).map_values(
                |i: ContainerInstanceView| (i.id, false),
            ),
        },
        EndpointingView::Infra { node, .. } => seq![(node, false)],
        EndpointingView::System { instance, .. } => seq![(instance, false)],
        EndpointingView::Person { person } => seq![(person, true)],
    }
}

pub open spec fn link_of(c: ConnectionView, from: (Seq<char>, bool), to: (Seq<char>, bool)) -> LinkView {
    LinkView { connection: c.id, from: from.0, to: to.0, from_person: from.1, kind: c.kind, purpose: c.purpose }
}

/// Every pair of a start and an end, the starts in order, for each start the ends in
/// order.
pub open spec fn pairs(c: ConnectionView, from: Seq<(Seq<char>, bool)>, to: Seq<(Seq<char>, bool)>) -> Seq<LinkView>
    decreases from.len(),
{
    if from.len() == 0 {
        seq![]
    } else {
        pairs(c, from.drop_last(), to) + to.map_values(|t: (Seq<char>, bool)| link_of(c, from.last(), t))
    }
}

pub open spec fn connection_links(e: EnvironmentView, c: ConnectionView) -> Seq<LinkView> {
    pairs(c, ends_spec(e, c.from), ends_spec(e, c.to))
}

/// The lines of a list of connections, in order.
pub open spec fn links_of(e: EnvironmentView, cs: Seq<ConnectionView>) -> Seq<LinkView>
    decreases cs.len(),
{
    if cs.len() == 0 {
        seq![]
    } else {
        links_of(e, cs.drop_last()) + connection_links(e, cs.last())
    }
}

pub open spec fn ends_view(s: Seq<(Id, bool)>) -> Seq<(Seq<char>, bool)> {
    s.map_values(|x: (Id, bool)| (x.0@, x.1))
}

fn one_end(id: &Id, person: bool) -> (r: Vec<(Id, bool)>)
    ensures
        ends_view(r@) == seq![(id@, person)],
{
    let mut v: Vec<(Id, bool)> = Vec::new();
    v.push((id.copy(), person));
    assert(ends_view(v@) =~= seq![(id@, person)]);
    v
}

/// The shapes one end reaches. A wildcard reaches several.
pub(crate) fn ends(index: &EnvIndex, side: &Endpointing) -> (r: Vec<(Id, bool)>)
    ensures
        ends_view(r@) == ends_spec(index.env_view(), side@),
{
    match side {
        Endpointing::Instance { target, .. } => match target {
            InstanceRef::One(id) => one_end(id, false),
            InstanceRef::Pattern { slug_pattern, within, .. } => {
                let found = index.matching_within(slug_pattern.as_str(), within.as_ref());
                let mut out: Vec<(Id, bool)> = Vec::new();
                let mut i: usize = 0;
                while i < found.len()
                    invariant
                        i <= found.len(),
                        ends_view(out@) == instance_refs_view(found@).take(i as int).map_values(
                            |x: ContainerInstanceView| (x.id, false),
                        ),
                    decreases found.len() - i,
                {
                    let ghost before = out@;
                    out.push((found[i].id.copy(), false));
                    proof {
                        let s = instance_refs_view(found@);
                        assert(ends_view(out@) =~= ends_view(before).push((s[i as int].id, false)));
                        assert(s.take(i + 1) =~= s.take(i as int).push(s[i as int]));
                        assert(s.take(i + 1).map_values(|x: ContainerInstanceView| (x.id, false)) =~= s.take(
                            i as int,
                        ).map_values(|x: ContainerInstanceView| (x.id, false)).push((s[i as int].id, false)));
                    }
                    i += 1;
                }
                assert(instance_refs_view(found@).take(i as int) =~= instance_refs_view(found@));
                out
            },
        },
        Endpointing::Infra { node, .. } => one_end(node, false),
        Endpointing::System { instance, .. } => one_end(instance, false),
        Endpointing::Person { person } => one_end(person, true),
    }
}

fn link(conn: &Connection, from: &(Id, bool), to: &(Id, bool)) -> (r: Link)
    ensures
        r@ == link_of(conn@, (from.0@, from.1), (to.0@, to.1)),
{
    Link {
        connection: conn.id.copy(),
        from: from.0.copy(),
        to: to.0.copy(),
        from_person: from.1,
        kind: conn.kind,
        purpose: conn.purpose.clone(),
    }
}

/// Every line of every connection of an environment: for each connection in order,
/// every pair of a shape its start reaches and one its end reaches.
pub fn links(project: &Project, environment: &Environment) -> (r: Vec<Link>)
    ensures
        links_view(r@) == links_of(environment@, environment@.connections),
{
    let index = EnvIndex::build(project, environment);
    let ghost e = environment@;
    let ghost cs = environment@.connections;
    let mut out: Vec<Link> = Vec::new();
    let mut c: usize = 0;
    while c < environment.connections.len()
        invariant
            c <= environment.connections@.len(),
            e == environment@,
            cs == e.connections,
            index.env_view() == e,
            links_view(out@) == links_of(e, cs.take(c as int)),
        decreases environment.connections.len() - c,
    {
        let conn = &environment.connections[c];
        assert(cs[c as int] == conn@);
        let from = ends(&index, &conn.from);
        let to = ends(&index, &conn.to);
        let ghost start = links_view(out@);
        let mut i: usize = 0;
        while i < from.len()
            invariant
                i <= from.len(),
                links_view(out@) == start + pairs(conn@, ends_view(from@).take(i as int), ends_view(to@)),
            decreases from.len() - i,
        {
            let ghost mid = links_view(out@);
            let mut j: usize = 0;
            while j < to.len()
                invariant
                    j <= to.len(),
                    i < from.len(),
                    links_view(out@) == mid + ends_view(to@).take(j as int).map_values(
                        |t: (Seq<char>, bool)| link_of(conn@, ends_view(from@)[i as int], t),
                    ),
                decreases to.len() - j,
            {
                let ghost before = out@;
                let l = link(conn, &from[i], &to[j]);
                out.push(l);
                proof {
                    let tv = ends_view(to@);
                    assert(ends_view(from@)[i as int] == (from@[i as int].0@, from@[i as int].1));
                    assert(tv[j as int] == (to@[j as int].0@, to@[j as int].1));
                    assert(links_view(out@) =~= links_view(before).push(l@));
                    assert(tv.take(j + 1) =~= tv.take(j as int).push(tv[j as int]));
                    assert(tv.take(j + 1).map_values(|t: (Seq<char>, bool)| link_of(conn@, ends_view(from@)[i as int], t))
                        =~= tv.take(j as int).map_values(|t: (Seq<char>, bool)| link_of(conn@, ends_view(from@)[i as int], t)).push(
                        link_of(conn@, ends_view(from@)[i as int], tv[j as int]),
                    ));
                }
                j += 1;
            }
            proof {
                let fv = ends_view(from@);
                assert(ends_view(to@).take(j as int) =~= ends_view(to@));
                assert(fv.take(i + 1).drop_last() =~= fv.take(i as int));
                assert(fv.take(i + 1).last() == fv[i as int]);
            }
            i += 1;
        }
        proof {
            assert(ends_view(from@).take(i as int) =~= ends_view(from@));
            assert(cs.take(c + 1).drop_last() =~= cs.take(c as int));
            assert(cs.take(c + 1).last() == conn@);
        }
        c += 1;
    }
    assert(cs.take(c as int) =~= cs);
    out
}

} // verus!
