use vstd::prelude::*;
use crate::entry::{Entry, EntryEdit, FacetConfig, edit_views, edits_ascending};
use crate::edit::{
    accepted, all_end_fit, appended, export_entries, exported_of, is_acceptable, is_ordered, next_edit_id,
    resume_edit_id,
};

verus! {

/// Where an edit session stands.
#[derive(Clone, Copy, Debug, PartialEq, Eq, Structural)]
pub enum Phase {
    /// Nothing done yet; the device is to be read.
    Idle,
    /// The entries to edit are chosen; the scratch file is to be written.
    Exporting,
    /// The scratch file is written; the editor is to run on it.
    AwaitingEditor,
    /// The editor has exited; the scratch file is to be read back.
    Reloading,
    /// The edited entries are accepted; the new history is to be saved.
    Validating,
    /// The new history is saved.
    Committed,
    /// The session stopped; the saved history is untouched.
    Failed,
}

/// Why an edit session failed.
#[derive(Clone, Copy, Debug, PartialEq, Eq, Structural)]
pub enum EditError {
    /// The loaded history's ids do not ascend strictly, so edited entries
    /// cannot be appended to it.
    UnorderedHistory,
    /// No id is left after the largest id of the history.
    IdsExhausted,
    /// An entry from the device ends past the last representable moment.
    OutOfRange,
    /// The scratch file could not be created or written.
    ScratchFile,
    /// The editor could not be launched.
    EditorLaunch,
    /// The scratch file did not parse back into entries.
    Parse,
    /// The edited entries repeat ids, are out of order, or reach into the
    /// history.
    Rejected,
    /// The new history could not be saved.
    Persist,
    /// An event came that the current phase does not wait for.
    OutOfOrder,
}

/// What happened outside, reported to the session.
pub enum EditEvent {
    /// The device returned these entries.
    Fetched(Vec<Entry>),
    /// Writing the scratch file succeeded or failed.
    ScratchWritten(bool),
    /// The editor process ran and exited (whatever its exit code), or could
    /// not be launched.
    EditorExited(bool),
    /// The scratch file read back parsed into these entries, or did not parse.
    Reloaded(Option<Vec<EntryEdit>>),
    /// Saving the new history succeeded or failed.
    Persisted(bool),
}

/// What the session asks to be done next.
#[derive(Clone, Copy, Debug, PartialEq, Eq, Structural)]
pub enum EditAction {
    /// Write the exported entries to a fresh scratch file and close it.
    WriteScratch,
    /// Run the editor on the scratch file and wait for it to exit.
    LaunchEditor,
    /// Open the scratch file anew and parse what it holds.
    ReloadScratch,
    /// Save the candidate history in one atomic replacement.
    Persist,
    /// Nothing is left to do.
    Done,
    /// Stop with this error.
    Abort(EditError),
}

/// The event that a phase waits for.
pub open spec fn awaited(phase: Phase, event: EditEvent) -> bool {
    match phase {
        Phase::Idle => event is Fetched,
        Phase::Exporting => event is ScratchWritten,
        Phase::AwaitingEditor => event is EditorExited,
        Phase::Reloading => event is Reloaded,
        Phase::Validating => event is Persisted,
        _ => false,
    }
}

/// One correction of the history through an external editor: the session
/// decides, the caller performs each action and reports the outcome.
pub struct EditSession {
    pub phase: Phase,
    /// The history as loaded; it is never changed.
    pub history: Vec<EntryEdit>,
    /// The first id that is read from the device.
    pub start_id: u32,
    /// The last id that is handed to the editor, if any.
    pub end_id: Option<u32>,
    pub config: FacetConfig,
    /// The entries handed to the editor.
    pub exported: Vec<EntryEdit>,
    /// The history to save: the loaded one followed by the edited entries.
    pub candidate: Vec<EntryEdit>,
}

impl EditSession {
    /// A session over `history` that reads the device from `start_id`, else
    /// from one past the largest id of the history, else from 1. It fails
    /// when the history's ids do not ascend strictly, or when no id is left
    /// after the history.
    pub fn new(
        history: Vec<EntryEdit>,
        start_id: Option<u32>,
        end_id: Option<u32>,
        config: FacetConfig,
    ) -> (r: Result<EditSession, EditError>)
        ensures
            !edits_ascending(edit_views(history@)) ==> r == Err::<EditSession, EditError>(
                EditError::UnorderedHistory,
            ),
            edits_ascending(edit_views(history@)) && resume_edit_id(edit_views(history@), start_id) is None
                ==> r == Err::<EditSession, EditError>(EditError::IdsExhausted),
            edits_ascending(edit_views(history@)) && resume_edit_id(edit_views(history@), start_id) is Some
                ==> r is Ok,
            r matches Ok(s) ==> {
                &&& edits_ascending(edit_views(history@))
                &&& s.phase == Phase::Idle
                &&& edit_views(s.history@) == edit_views(history@)
                &&& Some(s.start_id) == resume_edit_id(edit_views(history@), start_id)
                &&& s.end_id == end_id
                &&& s.config@ == config@
                &&& s.exported@.len() == 0
                &&& s.candidate@.len() == 0
            },
    {
        if !is_ordered(&history) {
            return Err(EditError::UnorderedHistory);
        }
        match next_edit_id(&history, start_id) {
            Some(first) => Ok(
                EditSession {
                    phase: Phase::Idle,
                    history,
                    start_id: first,
                    end_id,
                    config,
                    exported: Vec::new(),
                    candidate: Vec::new(),
                },
            ),
            None => Err(EditError::IdsExhausted),
        }
    }

    /// Takes in what happened outside and says what to do next.
    pub fn step(&mut self, event: EditEvent) -> (a: EditAction)
        ensures
            edit_views(final(self).history@) == edit_views(old(self).history@),
            final(self).start_id == old(self).start_id,
            final(self).end_id == old(self).end_id,
            final(self).config@ == old(self).config@,
            !(old(self).phase == Phase::Idle && event is Fetched) ==> edit_views(final(self).exported@)
                == edit_views(old(self).exported@),
            !(old(self).phase == Phase::Reloading && event is Reloaded) ==> edit_views(final(self).candidate@)
                == edit_views(old(self).candidate@),
            old(self).phase == Phase::Reloading && event is Reloaded && !(a == EditAction::Persist)
                ==> edit_views(final(self).candidate@) == edit_views(old(self).candidate@),
            old(self).phase == Phase::Idle && event is Fetched && !(a == EditAction::WriteScratch)
                ==> edit_views(final(self).exported@) == edit_views(old(self).exported@),
            !awaited(old(self).phase, event) ==> final(self).phase == Phase::Failed && a
                == EditAction::Abort(EditError::OutOfOrder),
            old(self).phase == Phase::Idle && event is Fetched ==> {
                let v = event->Fetched_0@;
                if all_end_fit(v) {
                    &&& final(self).phase == Phase::Exporting
                    &&& a == EditAction::WriteScratch
                    &&& edit_views(final(self).exported@) == exported_of(
                        v,
                        old(self).start_id,
                        old(self).end_id,
                        old(self).config@,
                    )
                } else {
                    final(self).phase == Phase::Failed && a == EditAction::Abort(EditError::OutOfRange)
                }
            },
            old(self).phase == Phase::Exporting && event is ScratchWritten ==> if event->ScratchWritten_0 {
                final(self).phase == Phase::AwaitingEditor && a == EditAction::LaunchEditor
            } else {
                final(self).phase == Phase::Failed && a == EditAction::Abort(EditError::ScratchFile)
            },
            old(self).phase == Phase::AwaitingEditor && event is EditorExited ==> if event->EditorExited_0 {
                final(self).phase == Phase::Reloading && a == EditAction::ReloadScratch
            } else {
                final(self).phase == Phase::Failed && a == EditAction::Abort(EditError::EditorLaunch)
            },
            old(self).phase == Phase::Reloading && event is Reloaded ==> match event->Reloaded_0 {
                Some(list) => if accepted(edit_views(old(self).history@), edit_views(list@)) {
                    &&& final(self).phase == Phase::Validating
                    &&& a == EditAction::Persist
                    &&& edit_views(final(self).candidate@) == edit_views(old(self).history@) + edit_views(list@)
                } else {
                    final(self).phase == Phase::Failed && a == EditAction::Abort(EditError::Rejected)
                },
                None => final(self).phase == Phase::Failed && a == EditAction::Abort(EditError::Parse),
            },
            old(self).phase == Phase::Validating && event is Persisted ==> if event->Persisted_0 {
                final(self).phase == Phase::Committed && a == EditAction::Done
            } else {
                final(self).phase == Phase::Failed && a == EditAction::Abort(EditError::Persist)
            },
    {
        match (self.phase, event) {
            (Phase::Idle, EditEvent::Fetched(fetched)) => {
                match export_entries(&fetched, self.start_id, self.end_id, &self.config) {
                    Some(list) => {
                        self.exported = list;
                        self.phase = Phase::Exporting;
                        EditAction::WriteScratch
                    },
                    None => {
                        self.phase = Phase::Failed;
                        EditAction::Abort(EditError::OutOfRange)
                    },
                }
            },
            (Phase::Exporting, EditEvent::ScratchWritten(ok)) => {
                if ok {
                    self.phase = Phase::AwaitingEditor;
                    EditAction::LaunchEditor
                } else {
                    self.phase = Phase::Failed;
                    EditAction::Abort(EditError::ScratchFile)
                }
            },
            (Phase::AwaitingEditor, EditEvent::EditorExited(launched)) => {
                if launched {
                    self.phase = Phase::Reloading;
                    EditAction::ReloadScratch
                } else {
                    self.phase = Phase::Failed;
                    EditAction::Abort(EditError::EditorLaunch)
                }
            },
            (Phase::Reloading, EditEvent::Reloaded(parsed)) => {
                match parsed {
                    Some(list) => {
                        if is_acceptable(&self.history, &list) {
                            self.candidate = appended(&self.history, list);
                            self.phase = Phase::Validating;
                            EditAction::Persist
                        } else {
                            self.phase = Phase::Failed;
                            EditAction::Abort(EditError::Rejected)
                        }
                    },
                    None => {
                        self.phase = Phase::Failed;
                        EditAction::Abort(EditError::Parse)
                    },
                }
            },
            (Phase::Validating, EditEvent::Persisted(ok)) => {
                if ok {
                    self.phase = Phase::Committed;
                    EditAction::Done
                } else {
                    self.phase = Phase::Failed;
                    EditAction::Abort(EditError::Persist)
                }
            },
            _ => {
                self.phase = Phase::Failed;
                EditAction::Abort(EditError::OutOfOrder)
            },
        }
    }
}

} // verus!
