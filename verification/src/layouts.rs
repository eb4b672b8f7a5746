//! The layouts modal: its stages and the transition taken on each message.
//!
//! The modal decides; its host performs. A transition that needs the store
//! (whether a name is taken, a rename or delete on disk) or the name rules
//! hands the host an [`Action`]; the host performs it and reports back
//! through [`LayoutsMenu::save_name_checked`],
//! [`LayoutsMenu::rename_name_checked`] or [`LayoutsMenu::rename_finished`].

use vstd::prelude::*;
use vstd::string::StringExecFns;

use crate::text::{spec_trim, trim};

verus! {

/// Outcome of the host-side save, reported back into the open modal so a
/// partial capture is annotated rather than silent.
#[derive(Debug, Clone, PartialEq)]
pub enum SaveOutcome {
    Saved {
        name: String,
        /// Placeholder tabs the capture had to leave out.
        omitted: usize,
    },
    Failed { error: String },
}

/// One live session the layout being applied omits, awaiting its
/// keep-or-close answer.
#[derive(Debug, Clone)]
pub struct OmittedRow<Sid> {
    pub session: Sid,
    /// Presentation label ("profile on server").
    pub label: String,
    /// The explicit answer; `false` (keep) until the user toggles it.
    pub close: bool,
}

/// What confirming the overwrite stage performs.
#[derive(Debug, Clone)]
pub enum OverwriteAction {
    Save,
    Rename { from: String },
}

/// Which stage the modal is in.
#[derive(Debug, Clone)]
pub enum Stage<Sid, Src> {
    Browse,
    SaveAs { name: String, error: Option<String> },
    ConfirmOverwrite { name: String, action: OverwriteAction },
    Rename { from: String, to: String, error: Option<String> },
    ConfirmDelete { name: String },
    ConfirmReset,
    KeepOrClose { source: Src, rows: Vec<OmittedRow<Sid>> },
}

/// A user gesture inside the modal.
#[derive(Debug, Clone)]
pub enum Message<Sid> {
    ApplyPressed(String),
    SaveAsPressed,
    NameChanged(String),
    SaveAsConfirmed,
    OverwritePressed(String),
    OverwriteConfirmed,
    RenamePressed(String),
    RenameConfirmed,
    DeletePressed(String),
    DeleteConfirmed,
    ResetPressed,
    ResetConfirmed,
    /// Cancel the current stage back to browsing.
    Back,
    ToggleClose(Sid, bool),
    KeepOrCloseConfirmed,
}

/// What the modal asks the application to do.
#[derive(Debug, Clone)]
pub enum Event<Sid, Src> {
    /// Apply the named layout.
    Apply { name: String },
    /// Re-run a prompted apply with every omitted session answered.
    ApplyWithAnswers { source: Src, close: Vec<Sid>, keep: Vec<Sid> },
    /// Capture the owning server's footprint and save it under `name`.
    Save { name: String },
    /// Re-place the active session's panes from current definitions.
    Reset,
}

/// What the host performs after a transition.
#[derive(Debug, Clone)]
pub enum Action<Sid, Src> {
    /// Nothing.
    Nothing,
    /// Move keyboard focus into the name input.
    FocusNameInput,
    /// Hand the event to the application.
    Emit(Event<Sid, Src>),
    /// Check the trimmed save name against the name rules and the store,
    /// then report through [`LayoutsMenu::save_name_checked`].
    CheckSaveName { name: String },
    /// Check the trimmed rename target against the name rules and the
    /// store, then report through [`LayoutsMenu::rename_name_checked`].
    CheckRenameName { from: String, to: String },
    /// Rename in the store, then report through
    /// [`LayoutsMenu::rename_finished`].
    Rename { from: String, to: String },
    /// Delete from the store (a failure is logged), then refresh the
    /// listing.
    Delete { name: String },
}

/// The rows with one keep-or-close answer toggled: the first row for
/// `session` takes `close`.
pub open spec fn toggled<Sid>(rows: Seq<OmittedRow<Sid>>, session: Sid, close: bool, from: int) -> Seq<OmittedRow<Sid>>
    decreases rows.len() - from,
{
    if from < 0 || from >= rows.len() {
        rows
    } else if rows[from].session == session {
        rows.update(from, OmittedRow { session: rows[from].session, label: rows[from].label, close })
    } else {
        toggled(rows, session, close, from + 1)
    }
}

/// The sessions of the first `n` rows whose answer is `close`, in order.
pub open spec fn answered<Sid>(rows: Seq<OmittedRow<Sid>>, close: bool, n: int) -> Seq<Sid>
    decreases n,
{
    if n <= 0 {
        Seq::empty()
    } else if rows[n - 1].close == close {
        answered(rows, close, n - 1).push(rows[n - 1].session)
    } else {
        answered(rows, close, n - 1)
    }
}

/// The layouts modal's decision state: the stage and the last save outcome.
#[derive(Debug)]
pub struct LayoutsMenu<Sid, Src> {
    pub stage: Stage<Sid, Src>,
    pub outcome: Option<SaveOutcome>,
}

impl<Sid: Copy + PartialEq, Src> LayoutsMenu<Sid, Src> {
    /// A freshly opened menu: browsing, with no outcome.
    pub fn new() -> (r: Self)
        ensures
            r.stage is Browse,
            r.outcome is None,
    {
        LayoutsMenu { stage: Stage::Browse, outcome: None }
    }

    /// Whether the menu is sitting in its browse stage.
    pub fn is_browsing(&self) -> (r: bool)
        ensures
            r == (self.stage is Browse),
    {
        match self.stage {
            Stage::Browse => true,
            _ => false,
        }
    }

    /// Enter the keep-or-close stage for the omitted sessions of the
    /// template being applied.
    pub fn prompt_keep_or_close(&mut self, source: Src, rows: Vec<OmittedRow<Sid>>)
        ensures
            final(self).stage == (Stage::KeepOrClose::<Sid, Src> { source, rows }),
            final(self).outcome == old(self).outcome,
    {
        self.stage = Stage::KeepOrClose { source, rows };
    }

    /// Record the host's save outcome (the host refreshes the listing).
    pub fn record_save_outcome(&mut self, outcome: SaveOutcome)
        ensures
            final(self).stage == old(self).stage,
            final(self).outcome == Some(outcome),
    {
        self.outcome = Some(outcome);
    }

    /// The transition on one message.
    pub fn update(&mut self, message: Message<Sid>) -> (r: Action<Sid, Src>)
        requires
            vstd::laws_eq::obeys_concrete_eq::<Sid>(),
        ensures
            match message {
                Message::ApplyPressed(name) => {
                    &&& r == Action::<Sid, Src>::Emit(Event::Apply { name })
                    &&& final(self).stage == old(self).stage
                    &&& final(self).outcome == old(self).outcome
                },
                Message::SaveAsPressed => {
                    &&& r is FocusNameInput
                    &&& final(self).stage matches Stage::SaveAs { name, error } && name@.len() == 0 && error is None
                    &&& final(self).outcome is None
                },
                Message::NameChanged(value) => {
                    &&& r is Nothing
                    &&& final(self).outcome == old(self).outcome
                    &&& final(self).stage == match old(self).stage {
                        Stage::SaveAs { .. } => Stage::SaveAs { name: value, error: None },
                        Stage::Rename { from, .. } => Stage::Rename { from, to: value, error: None },
                        other => other,
                    }
                },
                Message::SaveAsConfirmed => {
                    &&& final(self).stage == old(self).stage
                    &&& final(self).outcome == old(self).outcome
                    &&& match old(self).stage {
                        Stage::SaveAs { name, .. } => r matches Action::CheckSaveName { name: candidate } && candidate@
                            == spec_trim(name@),
                        _ => r is Nothing,
                    }
                },
                Message::OverwritePressed(name) => {
                    &&& r is Nothing
                    &&& final(self).stage == (Stage::ConfirmOverwrite::<Sid, Src> { name, action: OverwriteAction::Save })
                    &&& final(self).outcome is None
                },
                Message::OverwriteConfirmed => {
                    &&& final(self).outcome == old(self).outcome
                    &&& match old(self).stage {
                        Stage::ConfirmOverwrite { name, action: OverwriteAction::Save } => {
                            &&& r == Action::<Sid, Src>::Emit(Event::Save { name })
                            &&& final(self).stage is Browse
                        },
                        Stage::ConfirmOverwrite { name, action: OverwriteAction::Rename { from } } => {
                            &&& r == Action::<Sid, Src>::Rename { from, to: name }
                            &&& final(self).stage is Browse
                        },
                        _ => r is Nothing && final(self).stage == old(self).stage,
                    }
                },
                Message::RenamePressed(name) => {
                    &&& r is FocusNameInput
                    &&& final(self).stage matches Stage::Rename { from, to, error } && from == name && to@ == name@
                        && error is None
                    &&& final(self).outcome is None
                },
                Message::RenameConfirmed => {
                    &&& final(self).stage == old(self).stage
                    &&& final(self).outcome == old(self).outcome
                    &&& match old(self).stage {
                        Stage::Rename { from, to, .. } => r matches Action::CheckRenameName { from: f, to: target }
                            && f@ == from@ && target@ == spec_trim(to@),
                        _ => r is Nothing,
                    }
                },
                Message::DeletePressed(name) => {
                    &&& r is Nothing
                    &&& final(self).stage == (Stage::ConfirmDelete::<Sid, Src> { name })
                    &&& final(self).outcome is None
                },
                Message::DeleteConfirmed => {
                    &&& final(self).outcome == old(self).outcome
                    &&& match old(self).stage {
                        Stage::ConfirmDelete { name } => r == Action::<Sid, Src>::Delete { name } && final(self).stage is Browse,
                        _ => r is Nothing && final(self).stage == old(self).stage,
                    }
                },
                Message::ResetPressed => {
                    &&& r is Nothing
                    &&& final(self).stage is ConfirmReset
                    &&& final(self).outcome is None
                },
                Message::ResetConfirmed => {
                    &&& r == Action::<Sid, Src>::Emit(Event::Reset)
                    &&& final(self).stage is Browse
                    &&& final(self).outcome == old(self).outcome
                },
                Message::Back => {
                    &&& r is Nothing
                    &&& final(self).stage is Browse
                    &&& final(self).outcome == old(self).outcome
                },
                Message::ToggleClose(session, close) => {
                    &&& r is Nothing
                    &&& final(self).outcome == old(self).outcome
                    &&& match old(self).stage {
                        Stage::KeepOrClose { source, rows } => final(self).stage matches Stage::KeepOrClose {
                            source: s2,
                            rows: r2,
                        } && s2 == source && r2@ == toggled(rows@, session, close, 0),
                        other => final(self).stage == other,
                    }
                },
                Message::KeepOrCloseConfirmed => {
                    &&& final(self).outcome == old(self).outcome
                    &&& match old(self).stage {
                        Stage::KeepOrClose { source, rows } => {
                            &&& final(self).stage is Browse
                            &&& r matches Action::Emit(Event::ApplyWithAnswers { source: s2, close, keep }) && s2 == source
                                && close@ == answered(rows@, true, rows@.len() as int) && keep@ == answered(
                                rows@,
                                false,
                                rows@.len() as int,
                            )
                        },
                        other => r is Nothing && final(self).stage == other,
                    }
                },
            },
    {
        match message {
            Message::ApplyPressed(name) => Action::Emit(Event::Apply { name }),
            Message::SaveAsPressed => {
                self.stage = Stage::SaveAs { name: String::new(), error: None };
                self.outcome = None;
                Action::FocusNameInput
            },
            Message::NameChanged(value) => {
                let mut stage = Stage::Browse;
                std::mem::swap(&mut stage, &mut self.stage);
                self.stage = match stage {
                    Stage::SaveAs { .. } => Stage::SaveAs { name: value, error: None },
                    Stage::Rename { from, .. } => Stage::Rename { from, to: value, error: None },
                    other => other,
                };
                Action::Nothing
            },
            Message::SaveAsConfirmed => match &self.stage {
                Stage::SaveAs { name, .. } => {
                    let candidate = String::from_str(trim(name.as_str()));
                    Action::CheckSaveName { name: candidate }
                },
                _ => Action::Nothing,
            },
            Message::OverwritePressed(name) => {
                self.stage = Stage::ConfirmOverwrite { name, action: OverwriteAction::Save };
                self.outcome = None;
                Action::Nothing
            },
            Message::OverwriteConfirmed => {
                let mut stage = Stage::Browse;
                std::mem::swap(&mut stage, &mut self.stage);
                match stage {
                    Stage::ConfirmOverwrite { name, action: OverwriteAction::Save } => Action::Emit(
                        Event::Save { name },
                    ),
                    Stage::ConfirmOverwrite { name, action: OverwriteAction::Rename { from } } => Action::Rename {
                        from,
                        to: name,
                    },
                    other => {
                        self.stage = other;
                        Action::Nothing
                    },
                }
            },
            Message::RenamePressed(name) => {
                let to = name.clone();
                self.stage = Stage::Rename { from: name, to, error: None };
                self.outcome = None;
                Action::FocusNameInput
            },
            Message::RenameConfirmed => match &self.stage {
                Stage::Rename { from, to, .. } => {
                    let target = String::from_str(trim(to.as_str()));
                    Action::CheckRenameName { from: from.clone(), to: target }
                },
                _ => Action::Nothing,
            },
            Message::DeletePressed(name) => {
                self.stage = Stage::ConfirmDelete { name };
                self.outcome = None;
                Action::Nothing
            },
            Message::DeleteConfirmed => {
                let mut stage = Stage::Browse;
                std::mem::swap(&mut stage, &mut self.stage);
                match stage {
                    Stage::ConfirmDelete { name } => Action::Delete { name },
                    other => {
                        self.stage = other;
                        Action::Nothing
                    },
                }
            },
            Message::ResetPressed => {
                self.stage = Stage::ConfirmReset;
                self.outcome = None;
                Action::Nothing
            },
            Message::ResetConfirmed => {
                self.stage = Stage::Browse;
                Action::Emit(Event::Reset)
            },
            Message::Back => {
                self.stage = Stage::Browse;
                Action::Nothing
            },
            Message::ToggleClose(session, close) => {
                let mut stage = Stage::Browse;
                std::mem::swap(&mut stage, &mut self.stage);
                self.stage = match stage {
                    Stage::KeepOrClose { source, rows } => {
                        let rows = toggle_row(rows, session, close);
                        Stage::KeepOrClose { source, rows }
                    },
                    other => other,
                };
                Action::Nothing
            },
            Message::KeepOrCloseConfirmed => {
                let mut stage = Stage::Browse;
                std::mem::swap(&mut stage, &mut self.stage);
                match stage {
                    Stage::KeepOrClose { source, rows } => {
                        let close = sessions_answered(&rows, true);
                        let keep = sessions_answered(&rows, false);
                        Action::Emit(Event::ApplyWithAnswers { source, close, keep })
                    },
                    other => {
                        self.stage = other;
                        Action::Nothing
                    },
                }
            },
        }
    }
}

/// Session equality for session id types whose `==` is plain value
/// equality.
fn same_session<Sid: PartialEq>(x: &Sid, y: &Sid) -> (r: bool)
    requires
        vstd::laws_eq::obeys_concrete_eq::<Sid>(),
    ensures
        r == (*x == *y),
{
    proof {
        reveal(vstd::laws_eq::obeys_concrete_eq);
    }
    *x == *y
}

/// Set the answer of the first row for `session`.
fn toggle_row<Sid: Copy + PartialEq>(rows: Vec<OmittedRow<Sid>>, session: Sid, close: bool) -> (r: Vec<OmittedRow<Sid>>)
    requires
        vstd::laws_eq::obeys_concrete_eq::<Sid>(),
    ensures
        r@ == toggled(rows@, session, close, 0),
{
    let mut out = rows;
    let mut i: usize = 0;
    while i < out.len()
        invariant
            i <= out@.len(),
            out@ == rows@,
            toggled(rows@, session, close, 0) == toggled(rows@, session, close, i as int),
            vstd::laws_eq::obeys_concrete_eq::<Sid>(),
        decreases out@.len() - i,
    {
        if same_session(&out[i].session, &session) {
            let row = out.remove(i);
            let OmittedRow { session: s, label, close: _ } = row;
            out.insert(i, OmittedRow { session: s, label, close });
            proof {
                assert(out@ =~= rows@.update(i as int, OmittedRow { session: s, label, close }));
            }
            return out;
        }
        i += 1;
    }
    out
}

/// The sessions whose answer is `close`, in row order.
fn sessions_answered<Sid: Copy>(rows: &Vec<OmittedRow<Sid>>, close: bool) -> (r: Vec<Sid>)
    ensures
        r@ == answered(rows@, close, rows@.len() as int),
{
    let mut out: Vec<Sid> = Vec::new();
    let mut i: usize = 0;
    while i < rows.len()
        invariant
            i <= rows@.len(),
            out@ == answered(rows@, close, i as int),
        decreases rows@.len() - i,
    {
        if rows[i].close == close {
            out.push(rows[i].session);
        }
        i += 1;
    }
    out
}


impl<Sid: Copy + PartialEq, Src> LayoutsMenu<Sid, Src> {
    /// The save-as form's confirmation, once the trimmed `name` has been
    /// checked: a name the rules reject stays in the form with the reason;
    /// a name the store already holds asks for overwrite confirmation;
    /// otherwise the menu browses again and the save is emitted.
    pub fn save_name_checked(&mut self, name: String, valid: Result<(), String>, exists: bool) -> (r: Action<Sid, Src>)
        ensures
            final(self).outcome == old(self).outcome,
            match old(self).stage {
                Stage::SaveAs { name: typed, .. } => match valid {
                    Err(reason) => r is Nothing && final(self).stage == (Stage::SaveAs::<Sid, Src> {
                        name: typed,
                        error: Some(reason),
                    }),
                    Ok(()) => if exists {
                        r is Nothing && final(self).stage == (Stage::ConfirmOverwrite::<Sid, Src> {
                            name,
                            action: OverwriteAction::Save,
                        })
                    } else {
                        r == Action::<Sid, Src>::Emit(Event::Save { name }) && final(self).stage is Browse
                    },
                },
                other => r is Nothing && final(self).stage == other,
            },
    {
        let mut stage = Stage::Browse;
        std::mem::swap(&mut stage, &mut self.stage);
        match stage {
            Stage::SaveAs { name: typed, error } => match valid {
                Err(reason) => {
                    self.stage = Stage::SaveAs { name: typed, error: Some(reason) };
                    Action::Nothing
                },
                Ok(()) => {
                    if exists {
                        self.stage = Stage::ConfirmOverwrite { name, action: OverwriteAction::Save };
                        Action::Nothing
                    } else {
                        Action::Emit(Event::Save { name })
                    }
                },
            },
            other => {
                self.stage = other;
                Action::Nothing
            },
        }
    }

    /// The rename form's confirmation, once the trimmed target `to` has
    /// been checked: a name the rules reject stays in the form with the
    /// reason; renaming onto a different existing layout (`conflict` is
    /// false for a pure casing change of `from`) asks for overwrite
    /// confirmation; otherwise the rename is performed.
    pub fn rename_name_checked(
        &mut self,
        from: String,
        to: String,
        valid: Result<(), String>,
        conflict: bool,
        exists: bool,
    ) -> (r: Action<Sid, Src>)
        ensures
            final(self).outcome == old(self).outcome,
            match old(self).stage {
                Stage::Rename { from: f0, to: typed, .. } => match valid {
                    Err(reason) => r is Nothing && final(self).stage == (Stage::Rename::<Sid, Src> {
                        from: f0,
                        to: typed,
                        error: Some(reason),
                    }),
                    Ok(()) => if !conflict && exists {
                        r is Nothing && final(self).stage == (Stage::ConfirmOverwrite::<Sid, Src> {
                            name: to,
                            action: OverwriteAction::Rename { from },
                        })
                    } else {
                        r == Action::<Sid, Src>::Rename { from, to } && final(self).stage is Browse
                    },
                },
                other => r is Nothing && final(self).stage == other,
            },
    {
        let mut stage = Stage::Browse;
        std::mem::swap(&mut stage, &mut self.stage);
        match stage {
            Stage::Rename { from: f0, to: typed, error } => match valid {
                Err(reason) => {
                    self.stage = Stage::Rename { from: f0, to: typed, error: Some(reason) };
                    Action::Nothing
                },
                Ok(()) => {
                    if !conflict && exists {
                        self.stage = Stage::ConfirmOverwrite { name: to, action: OverwriteAction::Rename { from } };
                        Action::Nothing
                    } else {
                        Action::Rename { from, to }
                    }
                },
            },
            other => {
                self.stage = other;
                Action::Nothing
            },
        }
    }

    /// A performed rename's result: success browses again (and the host
    /// refreshes the listing, `true`); a failure returns to the rename form
    /// with the store's error.
    pub fn rename_finished(&mut self, from: String, to: String, result: Result<(), String>) -> (refresh: bool)
        ensures
            final(self).outcome == old(self).outcome,
            refresh == result is Ok,
            match result {
                Ok(()) => final(self).stage is Browse,
                Err(error) => final(self).stage == (Stage::Rename::<Sid, Src> { from, to, error: Some(error) }),
            },
    {
        match result {
            Ok(()) => {
                self.stage = Stage::Browse;
                true
            },
            Err(error) => {
                self.stage = Stage::Rename { from, to, error: Some(error) };
                false
            },
        }
    }
}


/// Every omitted session is answered exactly once: the close and keep lists
/// split the rows, and with no explicit toggle nothing is closed.
pub proof fn lemma_answers_partition<Sid>(rows: Seq<OmittedRow<Sid>>, n: int)
    requires
        0 <= n <= rows.len(),
    ensures
        answered(rows, true, n).len() + answered(rows, false, n).len() == n,
        (forall|i: int| 0 <= i < n ==> !(#[trigger] rows[i]).close) ==> answered(rows, true, n).len() == 0,
    decreases n,
{
    if n > 0 {
        lemma_answers_partition(rows, n - 1);
    }
}

} // verus!
