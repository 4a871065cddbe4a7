//! Undo, redo, and whether there are unsaved changes.
//!
//! The history keeps whole snapshots, not inverse operations: an inverse written wrong
//! would leave data that looks right and is not, while undoing to a snapshot cannot go
//! wrong. "Unsaved" compares the content with what was saved, not a counter: after an
//! edit and its undo the content is the saved one again, and nothing needs saving.

use vstd::prelude::*;
use crate::{Project, ProjectView};
use crate::duplicate::{Duplicate, Same};
use crate::edit::{Edit, EditError, EditErrorView, EditView, apply, apply_spec, edit_label};

verus! {

/// How many steps are kept. Past it the oldest step is dropped: undoing a hundred
/// times means the user wants to reopen the file, not press undo.
pub const DEPTH: usize = 100;

/// What one change left behind: the project before it, and its name.
struct Step {
    before: Project,
    label: &'static str,
}

impl View for Step {
    type V = (ProjectView, Seq<char>);

    closed spec fn view(&self) -> (ProjectView, Seq<char>) {
        (self.before@, self.label@)
    }
}

pub open spec fn steps_view(s: Seq<Step>) -> Seq<(ProjectView, Seq<char>)> {
    s.map_values(|x: Step| x@)
}

/// A project with its editing history. Every change goes through [`History::edit`] or
/// [`History::replace`]; the project itself is only lent out to read.
pub struct History {
    current: Project,
    past: Vec<Step>,
    /// What was undone. A new change clears it: a forked history has no obvious meaning.
    future: Vec<Step>,
    /// The content when it was last saved; `None` when it never was.
    saved: Option<Project>,
}

pub struct HistoryView {
    pub current: ProjectView,
    pub past: Seq<(ProjectView, Seq<char>)>,
    pub future: Seq<(ProjectView, Seq<char>)>,
    pub saved: Option<ProjectView>,
}

pub open spec fn opt_project_view(o: Option<Project>) -> Option<ProjectView> {
    match o {
        Some(p) => Some(p@),
        None => None,
    }
}

impl View for History {
    type V = HistoryView;

    closed spec fn view(&self) -> HistoryView {
        HistoryView {
            current: self.current@,
            past: steps_view(self.past@),
            future: steps_view(self.future@),
            saved: opt_project_view(self.saved),
        }
    }
}

/// The history after a change to `q` named `label`: the old content is the newest step
/// (the oldest one dropped beyond [`DEPTH`]), and nothing is left to redo.
pub open spec fn recorded(h: HistoryView, q: ProjectView, label: Seq<char>) -> HistoryView {
    let past = h.past.push((h.current, label));
    HistoryView {
        current: q,
        past: if past.len() > DEPTH {
            past.subrange(1, past.len() as int)
        } else {
            past
        },
        future: seq![],
        saved: h.saved,
    }
}

/// What an edit makes of a history; a failed edit leaves it exactly as it was.
pub open spec fn edit_history(h: HistoryView, e: EditView) -> Result<HistoryView, EditErrorView> {
    match apply_spec(h.current, e) {
        Ok(q) => Ok(recorded(h, q, edit_label(e))),
        Err(x) => Err(x),
    }
}

/// Undo: back to the newest step's content, which moves to the redo list.
pub open spec fn undone(h: HistoryView) -> HistoryView {
    if h.past.len() == 0 {
        h
    } else {
        HistoryView {
            current: h.past.last().0,
            past: h.past.drop_last(),
            future: h.future.push((h.current, h.past.last().1)),
            saved: h.saved,
        }
    }
}

/// Redo: forward to the content of the newest undone step.
pub open spec fn redone(h: HistoryView) -> HistoryView {
    if h.future.len() == 0 {
        h
    } else {
        HistoryView {
            current: h.future.last().0,
            past: h.past.push((h.current, h.future.last().1)),
            future: h.future.drop_last(),
            saved: h.saved,
        }
    }
}

/// Whether the content differs from the saved one (never saved counts as different).
pub open spec fn dirty(h: HistoryView) -> bool {
    h.saved != Some(h.current)
}

impl History {
    #[verifier::type_invariant]
    spec fn bounded(self) -> bool {
        self.past@.len() + self.future@.len() <= DEPTH
    }

    /// A project read from disk: it starts out saved.
    pub fn opened(project: Project) -> (h: History)
        ensures
            h@ == (HistoryView { current: project@, past: seq![], future: seq![], saved: Some(project@) }),
    {
        let saved = project.duplicate();
        let h = History { current: project, past: Vec::new(), future: Vec::new(), saved: Some(saved) };
        assert(h@.past =~= Seq::<(ProjectView, Seq<char>)>::empty());
        assert(h@.future =~= Seq::<(ProjectView, Seq<char>)>::empty());
        h
    }

    /// The project, to read.
    pub fn project(&self) -> (r: &Project)
        ensures
            r@ == self@.current,
    {
        &self.current
    }

    /// How many steps can be undone.
    pub fn undo_depth(&self) -> (r: usize)
        ensures
            r == self@.past.len(),
            r <= DEPTH,
    {
        proof {
            use_type_invariant(self);
        }
        self.past.len()
    }

    /// Puts `before` as the newest step, dropping the oldest past [`DEPTH`], and clears
    /// what could be redone.
    fn push_step(&mut self, before: Project, label: &'static str)
        ensures
            final(self)@.current == old(self)@.current,
            final(self)@.saved == old(self)@.saved,
            final(self)@.future == Seq::<(ProjectView, Seq<char>)>::empty(),
            final(self)@.past == ({
                let past = old(self)@.past.push((before@, label@));
                if past.len() > DEPTH {
                    past.subrange(1, past.len() as int)
                } else {
                    past
                }
            }),
    {
        proof {
            use_type_invariant(&*self);
        }
        let ghost old_past = steps_view(self.past@);
        let mut future: Vec<Step> = Vec::new();
        std::mem::swap(&mut future, &mut self.future);
        assert(steps_view(self.future@) =~= Seq::<(ProjectView, Seq<char>)>::empty());
        let mut past: Vec<Step> = Vec::new();
        std::mem::swap(&mut past, &mut self.past);
        past.push(Step { before, label });
        assert(steps_view(past@) =~= old_past.push((before@, label@)));
        if past.len() > DEPTH {
            let ghost full = past@;
            let _ = past.remove(0);
            assert(steps_view(past@) =~= steps_view(full).subrange(1, full.len() as int));
        }
        self.past = past;
    }

    /// Applies an edit. On failure the history is untouched: no empty undo step.
    pub fn edit(&mut self, edit: &Edit) -> (r: Result<(), EditError>)
        ensures
            match edit_history(old(self)@, edit@) {
                Ok(h) => r is Ok && final(self)@ == h,
                Err(x) => r matches Err(y) && y@ == x && final(self)@ == old(self)@,
            },
    {
        proof {
            use_type_invariant(&*self);
        }
        let mut after = self.current.duplicate();
        apply(&mut after, edit)?;
        let mut before = after;
        std::mem::swap(&mut before, &mut self.current);
        self.push_step(before, edit.label());
        Ok(())
    }

    /// Replaces the whole project, as an import does; it can be undone like an edit.
    pub fn replace(&mut self, project: Project, label: &'static str)
        ensures
            final(self)@ == recorded(old(self)@, project@, label@),
    {
        proof {
            use_type_invariant(&*self);
        }
        let mut before = project;
        std::mem::swap(&mut before, &mut self.current);
        self.push_step(before, label);
    }

    /// Undoes the newest step; `false` when there is none.
    pub fn undo(&mut self) -> (r: bool)
        ensures
            r == (old(self)@.past.len() > 0),
            final(self)@ == undone(old(self)@),
    {
        proof {
            use_type_invariant(&*self);
        }
        let ghost h0 = self@;
        let mut past: Vec<Step> = Vec::new();
        std::mem::swap(&mut past, &mut self.past);
        let step = match past.pop() {
            Some(s) => s,
            None => {
                self.past = past;
                assert(self@ =~~= h0);
                return false;
            },
        };
        assert(steps_view(past@) =~= h0.past.drop_last());
        self.past = past;
        let Step { before, label } = step;
        let mut current = before;
        std::mem::swap(&mut current, &mut self.current);
        let ghost f0 = steps_view(self.future@);
        let mut future: Vec<Step> = Vec::new();
        std::mem::swap(&mut future, &mut self.future);
        future.push(Step { before: current, label });
        assert(steps_view(future@) =~= f0.push((h0.current, label@)));
        self.future = future;
        true
    }

    /// Redoes the newest undone step; `false` when there is none.
    pub fn redo(&mut self) -> (r: bool)
        ensures
            r == (old(self)@.future.len() > 0),
            final(self)@ == redone(old(self)@),
    {
        proof {
            use_type_invariant(&*self);
        }
        let ghost h0 = self@;
        let mut future: Vec<Step> = Vec::new();
        std::mem::swap(&mut future, &mut self.future);
        let step = match future.pop() {
            Some(s) => s,
            None => {
                self.future = future;
                assert(self@ =~~= h0);
                return false;
            },
        };
        assert(steps_view(future@) =~= h0.future.drop_last());
        self.future = future;
        let Step { before, label } = step;
        let mut current = before;
        std::mem::swap(&mut current, &mut self.current);
        let ghost p0 = steps_view(self.past@);
        let mut past: Vec<Step> = Vec::new();
        std::mem::swap(&mut past, &mut self.past);
        past.push(Step { before: current, label });
        assert(steps_view(past@) =~= p0.push((h0.current, label@)));
        self.past = past;
        true
    }

    /// Records that the current content is what is on disk now.
    pub fn mark_saved(&mut self)
        ensures
            final(self)@ == (HistoryView {
                current: old(self)@.current,
                past: old(self)@.past,
                future: old(self)@.future,
                saved: Some(old(self)@.current),
            }),
    {
        proof {
            use_type_invariant(&*self);
        }
        self.saved = Some(self.current.duplicate());
    }

    /// Whether the content differs from what is on disk; asked before closing a window.
    pub fn is_dirty(&self) -> (r: bool)
        ensures
            r == dirty(self@),
    {
        match &self.saved {
            Some(s) => !s.same(&self.current),
            None => true,
        }
    }

    /// What undo would undo, such as `刪除連線`; `None` when nothing can be undone.
    pub fn undo_label(&self) -> (r: Option<&'static str>)
        ensures
            match r {
                Some(l) => self@.past.len() > 0 && l@ == self@.past.last().1,
                None => self@.past.len() == 0,
            },
    {
        if self.past.len() == 0 {
            None
        } else {
            let last = &self.past[self.past.len() - 1];
            Some(last.label)
        }
    }

    /// What redo would redo; `None` when nothing can be redone.
    pub fn redo_label(&self) -> (r: Option<&'static str>)
        ensures
            match r {
                Some(l) => self@.future.len() > 0 && l@ == self@.future.last().1,
                None => self@.future.len() == 0,
            },
    {
        if self.future.len() == 0 {
            None
        } else {
            let last = &self.future[self.future.len() - 1];
            Some(last.label)
        }
    }
}

/// Undoing an edit that succeeded gives back the content from before it, and the
/// step undone carries the edit's label.
pub proof fn lemma_undo_restores(h: HistoryView, e: EditView)
    requires
        edit_history(h, e) is Ok,
    ensures
        undone(edit_history(h, e)->Ok_0).current == h.current,
        undone(edit_history(h, e)->Ok_0).future.last() == (apply_spec(h.current, e)->Ok_0, edit_label(e)),
{
}

/// Redo lands back where undo started.
pub proof fn lemma_redo_after_undo(h: HistoryView)
    requires
        h.past.len() > 0,
    ensures
        redone(undone(h)) == h,
{
    assert(h.past.drop_last().push(h.past.last()) =~= h.past);
    assert(redone(undone(h)).future =~= h.future);
}

/// Undo after redo lands back where redo started.
pub proof fn lemma_undo_after_redo(h: HistoryView)
    requires
        h.future.len() > 0,
    ensures
        undone(redone(h)) == h,
{
    assert(h.future.drop_last().push(h.future.last()) =~= h.future);
    assert(undone(redone(h)).past =~= h.past);
}

/// An edit and its undo leave clean content clean: what counts is the content, not
/// how many changes were made since saving.
pub proof fn lemma_undo_to_saved_is_clean(h: HistoryView, e: EditView)
    requires
        !dirty(h),
        edit_history(h, e) is Ok,
    ensures
        !dirty(undone(edit_history(h, e)->Ok_0)),
{
}

/// A failed edit changes nothing: no empty step to undo, nothing marked unsaved.
pub proof fn lemma_failed_edit_changes_nothing(h: HistoryView, e: EditView)
    requires
        apply_spec(h.current, e) is Err,
    ensures
        edit_history(h, e) == Err::<HistoryView, EditErrorView>(apply_spec(h.current, e)->Err_0),
{
}

/// A new change leaves nothing to redo; a forked history has no obvious meaning.
pub proof fn lemma_change_clears_redo(h: HistoryView, q: ProjectView, label: Seq<char>)
    ensures
        recorded(h, q, label).future.len() == 0,
        recorded(h, q, label).current == q,
{
}

/// Past [`DEPTH`] steps the oldest is dropped: the newest steps are kept, in order.
pub proof fn lemma_depth_keeps_newest(h: HistoryView, q: ProjectView, label: Seq<char>)
    requires
        h.past.len() == DEPTH,
    ensures
        recorded(h, q, label).past.len() == DEPTH,
        recorded(h, q, label).past == h.past.subrange(1, DEPTH as int).push((h.current, label)),
{
    assert(h.past.push((h.current, label)).subrange(1, DEPTH + 1) =~= h.past.subrange(1, DEPTH as int).push((h.current, label)));
}

} // verus!