//! The file port.
//!
//! The core says "write this path"; whether that lands on a disk or in memory is not
//! its business. The cut is made at files, not at projects, so that the in-memory
//! store still exercises the whole layout that [`crate::repository`] decides.

use vstd::prelude::*;
use crate::order::{seq_lt, strictly_sorted, text_lt, text_eq, lemma_lt_irreflexive, lemma_lt_asymmetric,
    lemma_lt_transitive, lemma_lt_total};

verus! {

/// What kind of failure an access was.
///
/// `NotFound` is kept apart from every other failure: some files are missing on
/// purpose (no base snapshot before the first reconciliation), but a permission
/// problem must never look like an empty file.
#[derive(Debug, Clone, Copy, PartialEq, Eq, Structural)]
pub enum StoreErrorKind {
    NotFound,
    Other,
}

/// A failed access. The path always comes with it.
#[derive(Debug, Clone, PartialEq, Eq)]
pub struct StoreError {
    pub path: String,
    pub kind: StoreErrorKind,
    pub message: String,
}

impl StoreError {
    pub fn is_not_found(&self) -> (r: bool)
        ensures
            r == (self.kind == StoreErrorKind::NotFound),
    {
        match self.kind {
            StoreErrorKind::NotFound => true,
            StoreErrorKind::Other => false,
        }
    }

    /// The text shown to a person: the path, then what went wrong.
    pub fn describe(&self) -> (r: String)
        ensures
            r@ == self.path@ + "："@ + self.message@,
    {
        crate::text::concat3(self.path.as_str(), "：", self.message.as_str())
    }
}

/// Text files reached by relative paths separated by `/`.
pub trait FileStore {
    fn read(&self, path: &str) -> Result<String, StoreError>;

    fn write(&mut self, path: &str, contents: &str) -> Result<(), StoreError>;

    /// Removes a file. A file that was not there counts as removed: what the caller
    /// wants is that the path does not exist afterwards.
    fn remove(&mut self, path: &str) -> Result<(), StoreError>;
}

/// The files of a [`MemoryStore`], in increasing order of path, each path once.
pub open spec fn entry_paths(s: Seq<(String, String)>) -> Seq<Seq<char>> {
    s.map_values(|e: (String, String)| e.0@)
}

pub open spec fn has_path(s: Seq<(String, String)>, k: Seq<char>) -> bool {
    exists|i: int| 0 <= i < s.len() && s[i].0@ == k
}

pub open spec fn path_index(s: Seq<(String, String)>, k: Seq<char>) -> int {
    choose|i: int| 0 <= i < s.len() && s[i].0@ == k
}

pub open spec fn contents_at(s: Seq<(String, String)>, k: Seq<char>) -> Seq<char> {
    s[path_index(s, k)].1@
}

/// The files as a map from path to contents.
pub open spec fn files_map(s: Seq<(String, String)>) -> Map<Seq<char>, Seq<char>> {
    Map::new(|k: Seq<char>| has_path(s, k), |k: Seq<char>| contents_at(s, k))
}

/// In memory. For tests, and for "work out what would be written, then ask".
///
/// Paths come back in a stable order (increasing), so tests can compare them.
#[derive(Debug, PartialEq, Eq)]
pub struct MemoryStore {
    files: Vec<(String, String)>,
}

impl View for MemoryStore {
    type V = Map<Seq<char>, Seq<char>>;

    closed spec fn view(&self) -> Map<Seq<char>, Seq<char>> {
        files_map(self.files@)
    }
}

proof fn lemma_lookup(s: Seq<(String, String)>, i: int)
    requires
        strictly_sorted(entry_paths(s)),
        0 <= i < s.len(),
    ensures
        files_map(s).contains_key(s[i].0@),
        files_map(s)[s[i].0@] == s[i].1@,
{
    let k = s[i].0@;
    assert(entry_paths(s)[i] == k);
    assert(has_path(s, k));
    let j = path_index(s, k);
    assert(entry_paths(s)[j] == k);
    if j < i {
        assert(seq_lt(entry_paths(s)[j], entry_paths(s)[i]));
        lemma_lt_irreflexive(k);
    } else if i < j {
        assert(seq_lt(entry_paths(s)[i], entry_paths(s)[j]));
        lemma_lt_irreflexive(k);
    }
    assert(j == i);
    assert(files_map(s)[k] == contents_at(s, k));
}

impl MemoryStore {
    #[verifier::type_invariant]
    spec fn sorted(self) -> bool {
        strictly_sorted(entry_paths(self.files@))
    }

    pub fn new() -> (r: MemoryStore)
        ensures
            r@ == Map::<Seq<char>, Seq<char>>::empty(),
    {
        let r = MemoryStore { files: Vec::new() };
        assert(r@ =~= Map::<Seq<char>, Seq<char>>::empty());
        r
    }

    /// The place of `path`: the number of stored paths before it.
    fn position(&self, path: &str) -> (r: usize)
        ensures
            r <= self.files@.len(),
            forall|j: int| 0 <= j < r ==> seq_lt(#[trigger] self.files@[j].0@, path@),
            forall|j: int| r <= j < self.files@.len() ==> !seq_lt(#[trigger] self.files@[j].0@, path@),
    {
        proof {
            use_type_invariant(self);
        }
        let mut i: usize = 0;
        while i < self.files.len() && text_lt(self.files[i].0.as_str(), path)
            invariant
                i <= self.files@.len(),
                strictly_sorted(entry_paths(self.files@)),
                forall|j: int| 0 <= j < i ==> seq_lt(#[trigger] self.files@[j].0@, path@),
            decreases self.files.len() - i,
        {
            i += 1;
        }
        proof {
            assert forall|j: int| i <= j < self.files@.len() implies !seq_lt(#[trigger] self.files@[j].0@, path@) by {
                if j > i {
                    assert(entry_paths(self.files@)[i as int] == self.files@[i as int].0@);
                    assert(entry_paths(self.files@)[j] == self.files@[j].0@);
                    assert(seq_lt(self.files@[i as int].0@, self.files@[j].0@));
                    if seq_lt(self.files@[j].0@, path@) {
                        lemma_lt_transitive(self.files@[i as int].0@, self.files@[j].0@, path@);
                    }
                }
            }
        }
        i
    }

    /// The index of `path`, if it is stored.
    fn find(&self, path: &str) -> (r: Option<usize>)
        ensures
            match r {
                Some(i) => i < self.files@.len() && self.files@[i as int].0@ == path@,
                None => !self@.contains_key(path@),
            },
    {
        proof {
            use_type_invariant(self);
        }
        let i = self.position(path);
        if i < self.files.len() && text_eq(self.files[i].0.as_str(), path) {
            return Some(i);
        }
        proof {
            if has_path(self.files@, path@) {
                let j = choose|j: int| 0 <= j < self.files@.len() && self.files@[j].0@ == path@;
                lemma_lt_irreflexive(path@);
                if j > i {
                    assert(entry_paths(self.files@)[i as int] == self.files@[i as int].0@);
                    assert(entry_paths(self.files@)[j] == self.files@[j].0@);
                    lemma_lt_total(self.files@[i as int].0@, path@);
                }
            }
        }
        None
    }

    /// Which files there are, in increasing order of path.
    pub fn paths(&self) -> (r: Vec<&str>)
        ensures
            strictly_sorted(r@.map_values(|p: &str| p@)),
            r@.map_values(|p: &str| p@).to_set() == self@.dom(),
    {
        proof {
            use_type_invariant(self);
        }
        let mut out: Vec<&str> = Vec::new();
        let mut i: usize = 0;
        while i < self.files.len()
            invariant
                i <= self.files@.len(),
                strictly_sorted(entry_paths(self.files@)),
                out@.map_values(|p: &str| p@) == entry_paths(self.files@).take(i as int),
            decreases self.files.len() - i,
        {
            let ghost before = out@;
            out.push(self.files[i].0.as_str());
            proof {
                assert(out@.map_values(|p: &str| p@) =~= before.map_values(|p: &str| p@).push(self.files@[i as int].0@));
                assert(entry_paths(self.files@).take(i + 1) =~= entry_paths(self.files@).take(i as int).push(
                    entry_paths(self.files@)[i as int],
                ));
            }
            i += 1;
        }
        proof {
            let ps = entry_paths(self.files@);
            assert(ps.take(i as int) =~= ps);
            assert(ps.to_set() =~= self@.dom()) by {
                assert forall|k: Seq<char>| ps.to_set().contains(k) implies self@.dom().contains(k) by {
                    let j = choose|j: int| 0 <= j < ps.len() && ps[j] == k;
                    assert(self.files@[j].0@ == k);
                }
                assert forall|k: Seq<char>| self@.dom().contains(k) implies ps.to_set().contains(k) by {
                    let j = choose|j: int| 0 <= j < self.files@.len() && self.files@[j].0@ == k;
                    assert(ps[j] == k);
                }
            }
        }
        out
    }

    /// The contents of a file, if it is there.
    pub fn get(&self, path: &str) -> (r: Option<&str>)
        ensures
            match r {
                Some(c) => self@.contains_key(path@) && c@ == self@[path@],
                None => !self@.contains_key(path@),
            },
    {
        proof {
            use_type_invariant(self);
        }
        match self.find(path) {
            Some(i) => {
                proof {
                    lemma_lookup(self.files@, i as int);
                }
                Some(self.files[i].1.as_str())
            },
            None => None,
        }
    }

    pub fn is_empty(&self) -> (r: bool)
        ensures
            r == (self@.dom().len() == 0),
    {
        proof {
            use_type_invariant(self);
            if self.files@.len() > 0 {
                lemma_lookup(self.files@, 0);
                assert(self@.dom().contains(self.files@[0].0@));
                lemma_dom_finite(self.files@);
            } else {
                assert(self@.dom() =~= Set::<Seq<char>>::empty());
            }
        }
        self.files.len() == 0
    }
}

proof fn lemma_dom_finite(s: Seq<(String, String)>)
    ensures
        files_map(s).dom().finite(),
{
    assert(files_map(s).dom() =~= entry_paths(s).to_set()) by {
        assert forall|k: Seq<char>| files_map(s).dom().contains(k) implies entry_paths(s).to_set().contains(k) by {
            let j = choose|j: int| 0 <= j < s.len() && s[j].0@ == k;
            assert(entry_paths(s)[j] == k);
        }
        assert forall|k: Seq<char>| entry_paths(s).to_set().contains(k) implies files_map(s).dom().contains(k) by {
            let j = choose|j: int| 0 <= j < entry_paths(s).len() && entry_paths(s)[j] == k;
            assert(s[j].0@ == k);
        }
    }
    vstd::seq_lib::seq_to_set_is_finite(entry_paths(s));
}

impl FileStore for MemoryStore {
    fn read(&self, path: &str) -> (r: Result<String, StoreError>)
        ensures
            match r {
                Ok(c) => self@.contains_key(path@) && c@ == self@[path@],
                Err(e) => !self@.contains_key(path@) && e.path@ == path@ && e.kind == StoreErrorKind::NotFound,
            },
    {
        match self.get(path) {
            Some(c) => Ok(c.to_string()),
            None => Err(StoreError {
                path: path.to_string(),
                kind: StoreErrorKind::NotFound,
                message: "找不到這個檔案".to_string(),
            }),
        }
    }

    fn write(&mut self, path: &str, contents: &str) -> (r: Result<(), StoreError>)
        ensures
            r is Ok,
            final(self)@ == old(self)@.insert(path@, contents@),
    {
        proof {
            use_type_invariant(&*self);
        }
        let ghost s0 = self.files@;
        let i = self.position(path);
        if i < self.files.len() && text_eq(self.files[i].0.as_str(), path) {
            let entry = (path.to_string(), contents.to_string());
            let mut files: Vec<(String, String)> = Vec::new();
            std::mem::swap(&mut files, &mut self.files);
            files.set(i, entry);
            proof {
                let s1 = files@;
                assert(entry_paths(s1) =~= entry_paths(s0));
                assert(files_map(s1) =~= files_map(s0).insert(path@, contents@)) by {
                    assert forall|k: Seq<char>| #[trigger] files_map(s1).contains_key(k) == files_map(s0).insert(path@, contents@).contains_key(k) by {
                        if has_path(s1, k) {
                            let j = choose|j: int| 0 <= j < s1.len() && s1[j].0@ == k;
                            assert(s0[j].0@ == k || j == i);
                        }
                        if has_path(s0, k) {
                            let j = choose|j: int| 0 <= j < s0.len() && s0[j].0@ == k;
                            assert(s1[j].0@ == k || j == i);
                        }
                    }
                    assert forall|k: Seq<char>| files_map(s1).contains_key(k) implies #[trigger] files_map(s1)[k] == files_map(s0).insert(path@, contents@)[k] by {
                        let j = choose|j: int| 0 <= j < s1.len() && s1[j].0@ == k;
                        lemma_lookup(s1, j);
                        if j != i {
                            assert(s0[j] == s1[j]);
                            lemma_lookup(s0, j);
                            assert(entry_paths(s1)[j] == k);
                            assert(entry_paths(s1)[i as int] == path@);
                            lemma_lt_irreflexive(k);
                            if j < i {
                                assert(seq_lt(entry_paths(s1)[j], entry_paths(s1)[i as int]));
                            } else {
                                assert(seq_lt(entry_paths(s1)[i as int], entry_paths(s1)[j]));
                            }
                        }
                    }
                }
            }
            self.files = files;
        } else {
            let entry = (path.to_string(), contents.to_string());
            let mut files: Vec<(String, String)> = Vec::new();
            std::mem::swap(&mut files, &mut self.files);
            files.insert(i, entry);
            proof {
                let s1 = files@;
                assert(entry_paths(s1) =~= entry_paths(s0).take(i as int).push(path@) + entry_paths(s0).skip(i as int));
                if i < s0.len() {
                    lemma_lt_total(s0[i as int].0@, path@);
                    assert(entry_paths(s0)[i as int] == s0[i as int].0@);
                }
                assert forall|c: int| i <= c < s0.len() implies seq_lt(path@, #[trigger] entry_paths(s0)[c]) by {
                    if c > i {
                        assert(seq_lt(entry_paths(s0)[i as int], entry_paths(s0)[c]));
                        lemma_lt_transitive(path@, entry_paths(s0)[i as int], entry_paths(s0)[c]);
                    }
                }
                assert forall|a: int, b: int| 0 <= a < b < s1.len() implies seq_lt(entry_paths(s1)[a], entry_paths(s1)[b]) by {
                    let e0 = entry_paths(s0);
                    if b < i {
                        assert(entry_paths(s1)[a] == e0[a]);
                        assert(entry_paths(s1)[b] == e0[b]);
                    } else if b == i {
                        assert(entry_paths(s1)[a] == e0[a]);
                    } else if a < i {
                        assert(entry_paths(s1)[a] == e0[a]);
                        assert(entry_paths(s1)[b] == e0[b - 1]);
                        assert(seq_lt(e0[a], path@));
                        assert(seq_lt(path@, e0[b - 1]));
                        lemma_lt_transitive(e0[a], path@, e0[b - 1]);
                    } else if a == i {
                        assert(entry_paths(s1)[b] == e0[b - 1]);
                        assert(seq_lt(path@, e0[b - 1]));
                    } else {
                        assert(entry_paths(s1)[a] == e0[a - 1]);
                        assert(entry_paths(s1)[b] == e0[b - 1]);
                    }
                }
                assert(strictly_sorted(entry_paths(s1)));
                assert(files_map(s1) =~= files_map(s0).insert(path@, contents@)) by {
                    assert forall|k: Seq<char>| #[trigger] files_map(s1).contains_key(k) == files_map(s0).insert(path@, contents@).contains_key(k) by {
                        if has_path(s1, k) {
                            let j = choose|j: int| 0 <= j < s1.len() && s1[j].0@ == k;
                            if j < i {
                                assert(s0[j].0@ == k);
                            } else if j > i {
                                assert(s0[j - 1].0@ == k);
                            }
                        }
                        if has_path(s0, k) {
                            let j = choose|j: int| 0 <= j < s0.len() && s0[j].0@ == k;
                            if j < i {
                                assert(s1[j].0@ == k);
                            } else {
                                assert(s1[j + 1].0@ == k);
                            }
                        }
                        if k == path@ {
                            assert(s1[i as int].0@ == k);
                        }
                    }
                    assert forall|k: Seq<char>| files_map(s1).contains_key(k) implies #[trigger] files_map(s1)[k] == files_map(s0).insert(path@, contents@)[k] by {
                        let j = choose|j: int| 0 <= j < s1.len() && s1[j].0@ == k;
                        lemma_lookup(s1, j);
                        if j < i {
                            assert(s0[j] == s1[j]);
                            lemma_lookup(s0, j);
                            assert(entry_paths(s1)[j] == k);
                            assert(seq_lt(entry_paths(s1)[j], entry_paths(s1)[i as int]));
                            lemma_lt_irreflexive(k);
                        } else if j > i {
                            assert(s0[j - 1] == s1[j]);
                            lemma_lookup(s0, j - 1);
                            assert(entry_paths(s1)[j] == k);
                            assert(seq_lt(entry_paths(s1)[i as int], entry_paths(s1)[j]));
                            lemma_lt_irreflexive(k);
                        }
                    }
                }
            }
            self.files = files;
        }
        Ok(())
    }

    fn remove(&mut self, path: &str) -> (r: Result<(), StoreError>)
        ensures
            r is Ok,
            final(self)@ == old(self)@.remove(path@),
    {
        proof {
            use_type_invariant(&*self);
        }
        let ghost s0 = self.files@;
        match self.find(path) {
            Some(i) => {
                let mut files: Vec<(String, String)> = Vec::new();
                std::mem::swap(&mut files, &mut self.files);
                let _ = files.remove(i);
                proof {
                    let s1 = files@;
                    assert(s1 =~= s0.remove(i as int));
                    assert forall|a: int, b: int| 0 <= a < b < s1.len() implies seq_lt(entry_paths(s1)[a], entry_paths(s1)[b]) by {
                        let e0 = entry_paths(s0);
                        if b < i {
                            assert(entry_paths(s1)[a] == e0[a] && entry_paths(s1)[b] == e0[b]);
                        } else if a < i {
                            assert(entry_paths(s1)[a] == e0[a] && entry_paths(s1)[b] == e0[b + 1]);
                        } else {
                            assert(entry_paths(s1)[a] == e0[a + 1] && entry_paths(s1)[b] == e0[b + 1]);
                        }
                    }
                    assert(files_map(s1) =~= files_map(s0).remove(path@)) by {
                        assert forall|k: Seq<char>| #[trigger] files_map(s1).contains_key(k) == files_map(s0).remove(path@).contains_key(k) by {
                            if has_path(s1, k) {
                                let j = choose|j: int| 0 <= j < s1.len() && s1[j].0@ == k;
                                let jj = if j < i { j } else { j + 1 };
                                assert(s0[jj].0@ == k);
                                assert(entry_paths(s0)[jj] == k);
                                assert(entry_paths(s0)[i as int] == path@);
                                if k == path@ {
                                    lemma_lt_irreflexive(k);
                                    assert(jj != i);
                                    if jj < i {
                                        assert(seq_lt(entry_paths(s0)[jj], entry_paths(s0)[i as int]));
                                    } else {
                                        assert(seq_lt(entry_paths(s0)[i as int], entry_paths(s0)[jj]));
                                    }
                                }
                            }
                            if has_path(s0, k) && k != path@ {
                                let j = choose|j: int| 0 <= j < s0.len() && s0[j].0@ == k;
                                if j < i {
                                    assert(s1[j].0@ == k);
                                } else {
                                    assert(j != i);
                                    assert(s1[j - 1].0@ == k);
                                }
                            }
                        }
                        assert forall|k: Seq<char>| files_map(s1).contains_key(k) implies #[trigger] files_map(s1)[k] == files_map(s0).remove(path@)[k] by {
                            let j = choose|j: int| 0 <= j < s1.len() && s1[j].0@ == k;
                            lemma_lookup(s1, j);
                            let jj = if j < i { j } else { j + 1 };
                            assert(s0[jj] == s1[j]);
                            lemma_lookup(s0, jj);
                        }
                    }
                }
                self.files = files;
            },
            None => {
                proof {
                    assert(files_map(s0) =~= files_map(s0).remove(path@));
                }
            },
        }
        Ok(())
    }
}

/// What is read back after a write is what was written, and every other path keeps
/// its contents.
pub proof fn read_after_write(before: Map<Seq<char>, Seq<char>>, path: Seq<char>, contents: Seq<char>, other: Seq<char>)
    requires
        other != path,
    ensures
        before.insert(path, contents).contains_key(path),
        before.insert(path, contents)[path] == contents,
        before.insert(path, contents).contains_key(other) == before.contains_key(other),
        before.contains_key(other) ==> before.insert(path, contents)[other] == before[other],
{
}

/// After a removal the path is gone, and removing it again changes nothing.
pub proof fn remove_is_idempotent(before: Map<Seq<char>, Seq<char>>, path: Seq<char>)
    ensures
        !before.remove(path).contains_key(path),
        before.remove(path).remove(path) == before.remove(path),
{
    assert(before.remove(path).remove(path) =~= before.remove(path));
}

} // verus!
