//! The domain model of diagram-loom, its validation and its lint.
//!
//! Two layers: the [`logical`] layer is the master copy (which services exist, who must
//! reach whom); each [`environment`] realises it (which machines, which addresses).
//! Whatever the logical layer has, every environment must realise, or lint says so.

use vstd::prelude::*;

pub mod annotate;
pub mod batch;
pub mod connect;
pub mod coverage;
pub mod diagrams;
pub mod cascade;
pub mod duplicate;
pub mod edit;
pub mod environment;
pub mod highlight;
pub mod history;
pub mod id;
pub mod importer;
pub mod index;
pub mod inventory;
pub mod keyed;
pub mod lint;
pub mod logical;
pub mod order;
pub mod pattern;
pub mod plan;
pub mod reconcile;
pub mod repository;
pub mod resource;
pub mod slug;
pub mod store;
pub mod table;
pub mod text;
pub mod tree;
pub mod wiring;

use crate::environment::{Environment, EnvironmentView};
use crate::id::Id;
use crate::logical::{Logical, LogicalView, first_index, lemma_first_index, lemma_first_index_unique};

verus! {

/// Whether a memo is empty. A memo is free text that no rule reads.
pub fn memo_is_empty(memo: &str) -> (r: bool)
    ensures
        r == (memo@.len() == 0),
{
    memo.is_empty()
}

/// A project: one logical master plus several environments.
#[derive(Debug, Clone, PartialEq, Eq)]
pub struct Project {
    pub id: Id,
    pub slug: String,
    pub name: String,
    pub memo: String,
    pub logical: Logical,
    pub environments: Vec<Environment>,
}

pub struct ProjectView {
    pub id: Seq<char>,
    pub slug: Seq<char>,
    pub name: Seq<char>,
    pub memo: Seq<char>,
    pub logical: LogicalView,
    pub environments: Seq<EnvironmentView>,
}

impl View for Project {
    type V = ProjectView;

    open spec fn view(&self) -> ProjectView {
        ProjectView {
            id: self.id@,
            slug: self.slug@,
            name: self.name@,
            memo: self.memo@,
            logical: self.logical@,
            environments: self.environments@.map_values(|e: Environment| e@),
        }
    }
}

pub open spec fn environment_ids(p: ProjectView) -> Seq<Seq<char>> {
    p.environments.map_values(|e: EnvironmentView| e.id)
}

impl Project {
    /// The environment with this id.
    pub fn environment(&self, id: &Id) -> (r: Option<&Environment>)
        ensures
            match first_index(environment_ids(self@), id@) {
                Some(k) => r matches Some(x) && x@ == self@.environments[k],
                None => r is None,
            },
    {
        proof {
            lemma_first_index(environment_ids(self@), id@);
        }
        let mut i: usize = 0;
        while i < self.environments.len()
            invariant
                i <= self.environments.len(),
                forall|j: int| 0 <= j < i ==> self.environments@[j].id@ != id@,
            decreases self.environments.len() - i,
        {
            if self.environments[i].id.same(id) {
                proof {
                    assert(environment_ids(self@)[i as int] == id@);
                    lemma_first_index_unique(environment_ids(self@), id@, i as int);
                }
                return Some(&self.environments[i]);
            }
            i += 1;
        }
        None
    }
}

} // verus!
