//! Autosave bookkeeping for one open document.

use vstd::prelude::*;

verus! {

/// How long an edited document waits before it is written, in nanoseconds.
pub const AUTO_SAVE_DELAY_NANOS: u64 = 400_000_000;

/// Whether a document has unsaved edits, since when, and why the last write failed.
/// `T` is the clock reading taken when the edit was made.
pub struct SaveState<T> {
    dirty: bool,
    dirty_since: Option<T>,
    error: Option<String>,
}

/// The mathematical content of a [`SaveState`].
pub struct SaveView<T> {
    pub dirty: bool,
    pub dirty_since: Option<T>,
    pub error: Option<Seq<char>>,
}

impl<T> SaveView<T> {
    /// A pending autosave or a failed write only exist for a document with unsaved edits,
    /// and a failed write cancels the pending autosave.
    pub open spec fn well_formed(self) -> bool {
        &&& (self.dirty_since is Some ==> self.dirty)
        &&& (self.error is Some ==> self.dirty && self.dirty_since is None)
    }

    pub open spec fn clean() -> SaveView<T> {
        SaveView { dirty: false, dirty_since: None, error: None }
    }

    pub open spec fn status(self) -> SaveStatus {
        if self.error is Some {
            SaveStatus::Failed
        } else if self.dirty {
            SaveStatus::Saving
        } else {
            SaveStatus::Saved
        }
    }

    /// The state after the document's text was handed to a write that gave `outcome`:
    /// clean when the write succeeded; otherwise still dirty, with no autosave pending and
    /// the write's message recorded.
    pub open spec fn written(outcome: Result<(), Seq<char>>) -> SaveView<T> {
        match outcome {
            Ok(()) => SaveView::<T>::clean(),
            Err(message) => SaveView { dirty: true, dirty_since: None, error: Some(message) },
        }
    }
}

/// The outcome of a write: `Ok`, or the message for the user.
pub open spec fn outcome_view(outcome: Result<(), String>) -> Result<(), Seq<char>> {
    match outcome {
        Ok(()) => Ok(()),
        Err(message) => Err(message@),
    }
}

/// What the status shows after a write is its outcome: a successful write leaves nothing
/// to write again and shows the document saved; a failed one keeps the edits unsaved, shows
/// the failure, and keeps the write's message.
pub proof fn lemma_write_outcome_is_shown<T>(outcome: Result<(), Seq<char>>)
    ensures
        SaveView::<T>::written(outcome).well_formed(),
        outcome is Ok ==> !SaveView::<T>::written(outcome).dirty
            && SaveView::<T>::written(outcome).status() == SaveStatus::Saved,
        outcome matches Err(m) ==> SaveView::<T>::written(outcome).dirty
            && SaveView::<T>::written(outcome).status() == SaveStatus::Failed
            && SaveView::<T>::written(outcome).error == Some(m),
{
}

pub open spec fn opt_string_view(s: Option<String>) -> Option<Seq<char>> {
    match s {
        Some(e) => Some(e@),
        None => None,
    }
}

impl<T> View for SaveState<T> {
    type V = SaveView<T>;

    closed spec fn view(&self) -> SaveView<T> {
        SaveView { dirty: self.dirty, dirty_since: self.dirty_since, error: opt_string_view(self.error) }
    }
}

/// The label shown in the toolbar for the active document.
#[derive(Clone, Copy, Debug, PartialEq, Eq, Structural)]
pub enum SaveStatus {
    Failed,
    Saving,
    Saved,
}

impl SaveStatus {
    pub fn label(self) -> (label: &'static str)
        ensures
            self == SaveStatus::Failed ==> label@ == "SAVE FAILED"@,
            self == SaveStatus::Saving ==> label@ == "SAVING"@,
            self == SaveStatus::Saved ==> label@ == "SAVED"@,
    {
        match self {
            SaveStatus::Failed => "SAVE FAILED",
            SaveStatus::Saving => "SAVING",
            SaveStatus::Saved => "SAVED",
        }
    }
}

/// What the autosave timer asks for on a frame.
#[derive(Clone, Copy, Debug, PartialEq, Eq, Structural)]
pub enum AutosaveStep {
    /// No edit is waiting to be written.
    Idle,
    /// The delay has passed: write now.
    SaveNow,
    /// Check again after this many nanoseconds.
    WaitNanos(u64),
}

/// The autosave step for the time elapsed since the pending edit (`None`: no edit pending):
/// write once the delay has passed, otherwise wait for the rest of it.
pub open spec fn due_step(elapsed_nanos: Option<u128>) -> AutosaveStep {
    match elapsed_nanos {
        None => AutosaveStep::Idle,
        Some(e) => if e >= AUTO_SAVE_DELAY_NANOS {
            AutosaveStep::SaveNow
        } else {
            AutosaveStep::WaitNanos((AUTO_SAVE_DELAY_NANOS - e) as u64)
        },
    }
}

/// An edit is written once 400 milliseconds have passed since it was made; before that the
/// timer waits exactly the time that is left; with no edit pending there is nothing to do.
pub proof fn lemma_autosave_waits_for_the_delay(elapsed_nanos: u128)
    ensures
        (due_step(Some(elapsed_nanos)) == AutosaveStep::SaveNow) <==> elapsed_nanos >= 400_000_000,
        elapsed_nanos < 400_000_000 ==> (due_step(Some(elapsed_nanos)) matches AutosaveStep::WaitNanos(w)
            && w + elapsed_nanos == 400_000_000),
        due_step(None) == AutosaveStep::Idle,
{
}

/// Decides the autosave step from the time elapsed since the pending edit,
/// `None` when no edit is pending.
pub fn autosave_step(elapsed_nanos: Option<u128>) -> (step: AutosaveStep)
    ensures
        step == due_step(elapsed_nanos),
{
    match elapsed_nanos {
        None => AutosaveStep::Idle,
        Some(e) => {
            if e >= AUTO_SAVE_DELAY_NANOS as u128 {
                AutosaveStep::SaveNow
            } else {
                let left: u128 = AUTO_SAVE_DELAY_NANOS as u128 - e;
                AutosaveStep::WaitNanos(left as u64)
            }
        },
    }
}

impl<T> SaveState<T> {
    #[verifier::type_invariant]
    closed spec fn inv(self) -> bool {
        self@.well_formed()
    }

    /// A freshly opened document: nothing to save.
    pub fn new() -> (s: Self)
        ensures
            s@ == SaveView::<T>::clean(),
    {
        SaveState { dirty: false, dirty_since: None, error: None }
    }

    pub fn is_dirty(&self) -> (d: bool)
        ensures
            d == self@.dirty,
            self@.well_formed(),
    {
        proof { use_type_invariant(self); }
        self.dirty
    }

    pub fn dirty_since(&self) -> (t: Option<&T>)
        ensures
            t == (match self@.dirty_since {
                Some(x) => Some(&x),
                None => None::<&T>,
            }),
    {
        match &self.dirty_since {
            Some(t) => Some(t),
            None => None,
        }
    }

    pub fn error(&self) -> (e: Option<&str>)
        ensures
            match self@.error {
                Some(msg) => e matches Some(s) && s@ == msg,
                None => e is None,
            },
    {
        match &self.error {
            Some(msg) => Some(msg.as_str()),
            None => None,
        }
    }

    /// Records an edit made at `now`: the document is dirty, an autosave is pending
    /// and any earlier failure is forgotten.
    pub fn schedule(&mut self, now: T)
        ensures
            final(self)@ == (SaveView { dirty: true, dirty_since: Some(now), error: None }),
    {
        *self = SaveState { dirty: true, dirty_since: Some(now), error: None };
    }

    /// Records the outcome of the write that the document's text was handed to because
    /// it had unsaved edits. Returns whether the write succeeded.
    pub fn record_write(&mut self, outcome: Result<(), String>) -> (saved: bool)
        requires
            old(self)@.dirty,
        ensures
            final(self)@ == SaveView::<T>::written(outcome_view(outcome)),
            saved == outcome is Ok,
    {
        match outcome {
            Ok(()) => {
                *self = SaveState { dirty: false, dirty_since: None, error: None };
                true
            },
            Err(message) => {
                *self = SaveState { dirty: true, dirty_since: None, error: Some(message) };
                false
            },
        }
    }

    pub fn status(&self) -> (s: SaveStatus)
        ensures
            s == self@.status(),
    {
        if self.error.is_some() {
            SaveStatus::Failed
        } else if self.dirty {
            SaveStatus::Saving
        } else {
            SaveStatus::Saved
        }
    }

    /// The marker after a tab's name: a failed save, unsaved edits, or nothing.
    pub fn tab_marker(&self) -> (m: &'static str)
        ensures
            self@.error is Some ==> m@ == " !"@,
            self@.error is None && self@.dirty ==> m@ == " \u{2022}"@,
            self@.error is None && !self@.dirty ==> m@ == ""@,
    {
        if self.error.is_some() {
            " !"
        } else if self.dirty {
            " \u{2022}"
        } else {
            ""
        }
    }
}

} // verus!
