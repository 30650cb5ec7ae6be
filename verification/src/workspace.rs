//! The open tabs of a window: which files are open, which one is active,
//! their autosave state, and the window's last error.

use vstd::prelude::*;
use crate::save::{AutosaveStep, SaveState, SaveStatus, SaveView, autosave_step, due_step, opt_string_view, outcome_view};

verus! {

struct TabInfo<T> {
    key: Vec<u8>,
    save: SaveState<T>,
}

/// Open documents of type `D`, each identified by the bytes of its canonical path,
/// with autosave clock readings of type `T`.
pub struct Workspace<D, T> {
    infos: Vec<TabInfo<T>>,
    docs: Vec<D>,
    active: Option<usize>,
    error: Option<String>,
}

/// The mathematical content of a [`Workspace`].
#[verifier::ext_equal]
pub struct WorkspaceView<D, T> {
    pub keys: Seq<Seq<u8>>,
    pub saves: Seq<SaveView<T>>,
    pub documents: Seq<D>,
    pub active: Option<usize>,
    pub error: Option<Seq<char>>,
}

pub open spec fn keys_distinct(keys: Seq<Seq<u8>>) -> bool {
    forall|i: int, j: int|
        0 <= i < keys.len() && 0 <= j < keys.len() && i != j ==> keys[i] != keys[j]
}

/// Which tab is active after the tab at `index` was removed, leaving `new_len` tabs:
/// none when no tab is left; a later active tab keeps its document; when the active tab
/// itself is removed, the tab that took its place, or the new last tab.
pub open spec fn next_active(active: Option<usize>, index: usize, new_len: nat) -> Option<usize> {
    if new_len == 0 {
        None
    } else {
        match active {
            Some(a) => if a > index {
                Some((a - 1) as usize)
            } else if a == index {
                Some(if index < new_len { index } else { (new_len - 1) as usize })
            } else {
                Some(a)
            },
            None => None,
        }
    }
}

/// The save errors of `saves`, in order, skipping the states without one.
pub open spec fn save_errors<T>(saves: Seq<SaveView<T>>) -> Seq<Seq<char>>
    decreases saves.len(),
{
    if saves.len() == 0 {
        Seq::empty()
    } else {
        save_errors(saves.drop_last()) + match saves.last().error {
            Some(e) => seq![e],
            None => Seq::<Seq<char>>::empty(),
        }
    }
}

pub open spec fn written_view(written: Option<Result<(), String>>) -> Option<Result<(), Seq<char>>> {
    match written {
        Some(outcome) => Some(outcome_view(outcome)),
        None => None,
    }
}

/// No write of `written` failed.
pub open spec fn all_written(written: Seq<Option<Result<(), Seq<char>>>>) -> bool {
    forall|i: int| 0 <= i < written.len() ==> !(#[trigger] written[i] matches Some(Err(_)))
}

impl<D, T> WorkspaceView<D, T> {
    pub open spec fn len(self) -> nat {
        self.documents.len()
    }

    /// Every tab has a key and a save state, a tab is active exactly when there is one,
    /// the active index points at a tab, no file is open twice, and every save state is
    /// well formed.
    pub open spec fn well_formed(self) -> bool {
        &&& self.keys.len() == self.documents.len()
        &&& self.saves.len() == self.documents.len()
        &&& (self.active is Some <==> self.documents.len() > 0)
        &&& (self.active matches Some(a) ==> a < self.documents.len())
        &&& keys_distinct(self.keys)
        &&& forall|i: int| 0 <= i < self.saves.len() ==> #[trigger] self.saves[i].well_formed()
    }

    /// The messages shown in the error panel: the window's error first, then the save
    /// error of each tab that has one, in tab order.
    pub open spec fn error_lines(self) -> Seq<Seq<char>> {
        (match self.error {
            Some(e) => seq![e],
            None => Seq::empty(),
        }) + save_errors(self.saves)
    }

    /// The state after removing the tab at `index` without saving it.
    pub open spec fn without_tab(self, index: usize) -> WorkspaceView<D, T> {
        WorkspaceView {
            keys: self.keys.remove(index as int),
            saves: self.saves.remove(index as int),
            documents: self.documents.remove(index as int),
            active: next_active(self.active, index, (self.len() - 1) as nat),
            error: self.error,
        }
    }

    /// The state after the writes of a save-all: the tab at `i` with an outcome
    /// `written[i]` records it; a tab without one keeps its state.
    pub open spec fn after_writes(self, written: Seq<Option<Result<(), Seq<char>>>>) -> WorkspaceView<D, T> {
        WorkspaceView {
            saves: Seq::new(self.saves.len(), |i: int| match written[i] {
                Some(outcome) => SaveView::<T>::written(outcome),
                None => self.saves[i],
            }),
            ..self
        }
    }

    pub open spec fn with_active(self, active: Option<usize>) -> WorkspaceView<D, T> {
        WorkspaceView { active, ..self }
    }

    pub open spec fn with_error(self, error: Option<Seq<char>>) -> WorkspaceView<D, T> {
        WorkspaceView { error, ..self }
    }

    /// The state after a new document was opened from the file with path bytes `key`.
    pub open spec fn with_opened(self, key: Seq<u8>, doc: D) -> WorkspaceView<D, T> {
        WorkspaceView {
            keys: self.keys.push(key),
            saves: self.saves.push(SaveView::<T>::clean()),
            documents: self.documents.push(doc),
            active: Some(self.len() as usize),
            error: None,
        }
    }
}

impl<D, T> View for Workspace<D, T> {
    type V = WorkspaceView<D, T>;

    closed spec fn view(&self) -> WorkspaceView<D, T> {
        assemble(self.infos@, self.docs@, self.active, self.error)
    }
}

spec fn assemble<D, T>(
    infos: Seq<TabInfo<T>>,
    docs: Seq<D>,
    active: Option<usize>,
    error: Option<String>,
) -> WorkspaceView<D, T> {
    WorkspaceView {
        keys: infos.map_values(|t: TabInfo<T>| t.key@),
        saves: infos.map_values(|t: TabInfo<T>| t.save@),
        documents: docs,
        active: active,
        error: opt_string_view(error),
    }
}

/// Whether two byte strings are equal.
pub fn bytes_equal(a: &[u8], b: &[u8]) -> (eq: bool)
    ensures
        eq == (a@ == b@),
{
    if a.len() != b.len() {
        return false;
    }
    let mut i: usize = 0;
    while i < a.len()
        invariant
            a@.len() == b@.len(),
            i <= a@.len(),
            forall|j: int| 0 <= j < i ==> a@[j] == b@[j],
        decreases a@.len() - i,
    {
        if a[i] != b[i] {
            return false;
        }
        i += 1;
    }
    assert(a@ =~= b@);
    true
}

impl<D, T> Workspace<D, T> {
    #[verifier::type_invariant]
    closed spec fn inv(self) -> bool {
        self@.well_formed()
    }

    /// A window with no open tab and no error.
    pub fn new() -> (w: Self)
        ensures
            w@.keys.len() == 0,
            w@.len() == 0,
            w@.active is None,
            w@.error is None,
            w@.well_formed(),
    {
        let w = Workspace { infos: Vec::new(), docs: Vec::new(), active: None, error: None };
        assert(w@.saves =~= Seq::<SaveView<T>>::empty());
        assert(w@.keys =~= Seq::<Seq<u8>>::empty());
        w
    }

    pub fn len(&self) -> (n: usize)
        ensures
            n == self@.len(),
            self@.well_formed(),
    {
        proof { use_type_invariant(self); }
        self.docs.len()
    }

    pub fn is_empty(&self) -> (e: bool)
        ensures
            e == (self@.len() == 0),
    {
        self.docs.len() == 0
    }

    pub fn active(&self) -> (a: Option<usize>)
        ensures
            a == self@.active,
            self@.well_formed(),
    {
        proof { use_type_invariant(self); }
        self.active
    }

    pub fn document(&self, index: usize) -> (d: &D)
        requires
            index < self@.len(),
        ensures
            *d == self@.documents[index as int],
    {
        &self.docs[index]
    }

    pub fn document_mut(&mut self, index: usize) -> (d: &mut D)
        requires
            index < old(self)@.len(),
        ensures
            *d == old(self)@.documents[index as int],
            final(self)@.documents == old(self)@.documents.update(index as int, *final(d)),
            final(self)@.keys == old(self)@.keys,
            final(self)@.saves == old(self)@.saves,
            final(self)@.active == old(self)@.active,
            final(self)@.error == old(self)@.error,
    {
        proof { use_type_invariant(&*self); }
        &mut self.docs[index]
    }

    /// Takes the parts out of the workspace, leaving an empty one behind.
    fn into_parts(&mut self) -> (parts: (Vec<TabInfo<T>>, Vec<D>, Option<usize>, Option<String>))
        ensures
            assemble(parts.0@, parts.1@, parts.2, parts.3) == old(self)@,
            old(self)@.well_formed(),
    {
        proof { use_type_invariant(&*self); }
        let mut tmp = Workspace { infos: Vec::new(), docs: Vec::new(), active: None, error: None };
        proof {
            assert(tmp@.keys =~= Seq::<Seq<u8>>::empty());
            assert(tmp@.saves =~= Seq::<SaveView<T>>::empty());
        }
        std::mem::swap(self, &mut tmp);
        let Workspace { infos, docs, active, error } = tmp;
        (infos, docs, active, error)
    }

    /// The document of the active tab, if any.
    pub fn active_document(&self) -> (d: Option<&D>)
        ensures
            d == (match self@.active {
                Some(a) => Some(&self@.documents[a as int]),
                None => None::<&D>,
            }),
    {
        proof { use_type_invariant(self); }
        match self.active {
            Some(index) => Some(&self.docs[index]),
            None => None,
        }
    }

    /// The tab whose file has the path bytes `key`.
    pub fn position(&self, key: &[u8]) -> (found: Option<usize>)
        ensures
            match found {
                Some(i) => i < self@.len() && self@.keys[i as int] == key@,
                None => !self@.keys.contains(key@),
            },
            self@.well_formed(),
    {
        proof { use_type_invariant(self); }
        let mut i: usize = 0;
        while i < self.infos.len()
            invariant
                self@.well_formed(),
                self@.keys.len() == self.infos@.len(),
                i <= self.infos@.len(),
                forall|j: int| 0 <= j < i ==> self@.keys[j] != key@,
            decreases self.infos@.len() - i,
        {
            if bytes_equal(self.infos[i].key.as_slice(), key) {
                return Some(i);
            }
            i += 1;
        }
        None
    }

    /// Makes the tab at `index` active; an index past the last tab changes nothing.
    pub fn select(&mut self, index: usize)
        ensures
            final(self)@ == (if index < old(self)@.len() {
                old(self)@.with_active(Some(index))
            } else {
                old(self)@
            }),
    {
        proof { use_type_invariant(&*self); }
        if index < self.docs.len() {
            self.active = Some(index);
        }
    }

    /// Opening a file that is already open selects its tab. Returns whether it was open.
    pub fn select_path(&mut self, key: &[u8]) -> (was_open: bool)
        ensures
            was_open == old(self)@.keys.contains(key@),
            was_open ==> (final(self)@.active matches Some(a) && old(self)@.keys[a as int] == key@
                && final(self)@ == old(self)@.with_active(Some(a))),
            !was_open ==> final(self)@ == old(self)@,
    {
        match self.position(key) {
            Some(i) => {
                assert(self@.keys[i as int] == key@);
                self.select(i);
                true
            },
            None => false,
        }
    }

    /// Adds the outcome of reading the file with path bytes `key`: a new active tab, or the
    /// error that explains why it could not be read (the current tab is kept). A file that
    /// is already open is selected instead of being opened twice.
    pub fn add_opened(&mut self, key: Vec<u8>, opened: Result<D, String>)
        ensures
            match opened {
                Err(e) => final(self)@ == old(self)@.with_error(Some(e@)),
                Ok(d) => if old(self)@.keys.contains(key@) {
                    final(self)@.active matches Some(a) && old(self)@.keys[a as int] == key@
                        && final(self)@ == old(self)@.with_active(Some(a))
                } else {
                    final(self)@ == old(self)@.with_opened(key@, d)
                },
            },
            final(self)@.well_formed(),
    {
        match opened {
            Err(e) => {
                proof { use_type_invariant(&*self); }
                self.error = Some(e);
                proof { use_type_invariant(&*self); }
            },
            Ok(d) => {
                match self.position(key.as_slice()) {
                    Some(i) => {
                        assert(self@.keys[i as int] == key@);
                        self.select(i);
                    },
                    None => {
                        let ghost old_view = self@;
                        let (mut infos, mut docs, _active, _error) = self.into_parts();
                        let ghost key_view = key@;
                        infos.push(TabInfo { key, save: SaveState::new() });
                        docs.push(d);
                        let n = docs.len();
                        proof {
                            let next = assemble(infos@, docs@, Some((n - 1) as usize), None::<String>);
                            assert(next.keys =~= old_view.keys.push(key_view));
                            assert(next.saves =~= old_view.saves.push(SaveView::<T>::clean()));
                        }
                        *self = Workspace { infos, docs, active: Some(n - 1), error: None };
                    },
                }
                proof { use_type_invariant(&*self); }
            },
        }
    }

    /// Removes the tab at `index` without saving it and returns its document.
    pub fn remove_tab(&mut self, index: usize) -> (doc: D)
        requires
            index < old(self)@.len(),
        ensures
            doc == old(self)@.documents[index as int],
            final(self)@ == old(self)@.without_tab(index),
            final(self)@.well_formed(),
    {
        let ghost old_view = self@;
        let (mut infos, mut docs, active, error) = self.into_parts();
        let ghost old_infos = infos@;
        infos.remove(index);
        let doc = docs.remove(index);
        let remaining = docs.len();
        let next = if remaining == 0 {
            None
        } else {
            match active {
                Some(a) => if a > index {
                    Some(a - 1)
                } else if a == index {
                    Some(if index < remaining { index } else { remaining - 1 })
                } else {
                    Some(a)
                },
                None => None,
            }
        };
        proof {
            let after = assemble(infos@, docs@, next, error);
            assert(after.keys =~= old_view.keys.remove(index as int));
            assert(after.saves =~= old_view.saves.remove(index as int));
            assert forall|i: int, j: int|
                0 <= i < after.keys.len() && 0 <= j < after.keys.len() && i != j
                implies after.keys[i] != after.keys[j] by {
                let oi = if i < index { i } else { i + 1 };
                let oj = if j < index { j } else { j + 1 };
                assert(after.keys[i] == old_view.keys[oi]);
                assert(after.keys[j] == old_view.keys[oj]);
            }
            assert forall|i: int| 0 <= i < after.saves.len()
                implies #[trigger] after.saves[i].well_formed() by {
                let oi = if i < index { i } else { i + 1 };
                assert(after.saves[i] == old_view.saves[oi]);
            }
        }
        *self = Workspace { infos, docs, active: next, error };
        proof { assert(self@ =~= old_view.without_tab(index)); }
        doc
    }

    /// Records an edit of the document at `index` made at `now`.
    pub fn schedule_save(&mut self, index: usize, now: T)
        requires
            index < old(self)@.len(),
        ensures
            final(self)@ == (WorkspaceView {
                saves: old(self)@.saves.update(
                    index as int,
                    SaveView { dirty: true, dirty_since: Some(now), error: None },
                ),
                ..old(self)@
            }),
            final(self)@.well_formed(),
    {
        let ghost old_view = self@;
        let (mut infos, docs, active, error) = self.into_parts();
        infos[index].save.schedule(now);
        proof {
            let after = assemble(infos@, docs@, active, error);
            assert(after.keys =~= old_view.keys);
            assert(after.saves =~= old_view.saves.update(
                index as int,
                SaveView { dirty: true, dirty_since: Some(now), error: None },
            ));
        }
        *self = Workspace { infos, docs, active, error };
    }

    /// The autosave step of the tab at `index`, given the time elapsed since its pending
    /// edit: nothing to do without one; the document must be written once the delay has
    /// passed; otherwise check again when it will have.
    pub fn autosave_step(&self, index: usize, elapsed_nanos: u128) -> (step: AutosaveStep)
        requires
            index < self@.len(),
        ensures
            step == (match self@.saves[index as int].dirty_since {
                Some(_) => due_step(Some(elapsed_nanos)),
                None => AutosaveStep::Idle,
            }),
            step == AutosaveStep::SaveNow ==> self@.saves[index as int].dirty,
    {
        proof { use_type_invariant(self); }
        let pending = self.infos[index].save.dirty_since().is_some();
        proof { assert(self@.saves[index as int].well_formed()); }
        if pending {
            autosave_step(Some(elapsed_nanos))
        } else {
            AutosaveStep::Idle
        }
    }

    /// Records the outcome of the write that the dirty document at `index` was handed to.
    /// Returns whether the write succeeded. The documents themselves are not touched.
    pub fn record_write(&mut self, index: usize, outcome: Result<(), String>) -> (saved: bool)
        requires
            index < old(self)@.len(),
            old(self)@.saves[index as int].dirty,
        ensures
            final(self)@ == (WorkspaceView {
                saves: old(self)@.saves.update(index as int, SaveView::<T>::written(outcome_view(outcome))),
                ..old(self)@
            }),
            saved == outcome is Ok,
            final(self)@.well_formed(),
    {
        let ghost old_view = self@;
        let ghost outcome_spec = outcome_view(outcome);
        let (mut infos, docs, active, error) = self.into_parts();
        let saved = infos[index].save.record_write(outcome);
        proof {
            let after = assemble(infos@, docs@, active, error);
            assert(after.keys =~= old_view.keys);
            assert(after.saves =~= old_view.saves.update(index as int, SaveView::<T>::written(outcome_spec)));
            crate::save::lemma_write_outcome_is_shown::<T>(outcome_spec);
        }
        *self = Workspace { infos, docs, active, error };
        saved
    }

    /// Records the outcomes of saving every tab: `written[i]` is the outcome of the write
    /// that the document at `i` was handed to, given exactly for the documents with unsaved
    /// edits. A failed write does not stop the others from being recorded. Returns whether
    /// every write succeeded, that is, whether every document is now saved.
    pub fn save_all(&mut self, written: Vec<Option<Result<(), String>>>) -> (saved: bool)
        requires
            written@.len() == old(self)@.len(),
            forall|i: int| 0 <= i < written@.len()
                ==> (#[trigger] written@[i] is Some <==> old(self)@.saves[i].dirty),
        ensures
            final(self)@ == old(self)@.after_writes(written@.map_values(|w: Option<Result<(), String>>| written_view(w))),
            saved == all_written(written@.map_values(|w: Option<Result<(), String>>| written_view(w))),
            saved == (forall|i: int| 0 <= i < final(self)@.len() ==> !#[trigger] final(self)@.saves[i].dirty),
            final(self)@.well_formed(),
    {
        let ghost old_view = self@;
        let ghost wv = written@.map_values(|w: Option<Result<(), String>>| written_view(w));
        let ghost target = old_view.after_writes(wv);
        let (mut infos, docs, active, error) = self.into_parts();
        let n = infos.len();
        let mut rest = written;
        let mut all = true;
        let mut i: usize = 0;
        while i < n
            invariant
                n == infos@.len(),
                n == docs@.len(),
                old_view.len() == n,
                old_view.saves.len() == n,
                old_view.well_formed(),
                wv.len() == n,
                target == old_view.after_writes(wv),
                i <= n,
                rest@.len() == n - i,
                forall|k: int| 0 <= k < rest@.len() ==> written_view(#[trigger] rest@[k]) == wv[i + k],
                forall|k: int| 0 <= k < n ==> (#[trigger] wv[k] is Some <==> old_view.saves[k].dirty),
                forall|k: int| 0 <= k < n ==> (#[trigger] infos@[k]).key@ == old_view.keys[k],
                forall|k: int| 0 <= k < i ==> (#[trigger] infos@[k]).save@ == target.saves[k],
                forall|k: int| i <= k < n ==> (#[trigger] infos@[k]).save@ == old_view.saves[k],
                all == (forall|k: int| 0 <= k < i ==> !(#[trigger] wv[k] matches Some(Err(_)))),
            decreases n - i,
        {
            let ghost before = infos@;
            let ghost next_rest = rest@.subrange(1, rest@.len() as int);
            let w = rest.remove(0);
            proof {
                assert(written_view(w) == wv[i as int]);
                assert(rest@ =~= next_rest);
            }
            proof {
                assert(target.saves[i as int] == (match wv[i as int] {
                    Some(o) => SaveView::<T>::written(o),
                    None => old_view.saves[i as int],
                }));
            }
            match w {
                Some(outcome) => {
                    let ok = infos[i].save.record_write(outcome);
                    all = all && ok;
                },
                None => {},
            }
            proof {
                assert forall|k: int| 0 <= k < n && k != i implies infos@[k] == before[k] by {}
                assert(infos@[i as int].save@ == target.saves[i as int]);
                assert forall|k: int| 0 <= k < rest@.len() implies written_view(#[trigger] rest@[k]) == wv[i + 1 + k] by {
                    assert(rest@[k] == next_rest[k]);
                }
            }
            i += 1;
        }
        proof {
            let after = assemble(infos@, docs@, active, error);
            assert(after.keys =~= old_view.keys);
            assert(after.saves =~= target.saves);
            assert(after =~= target);
            assert forall|k: int| 0 <= k < n implies #[trigger] target.saves[k].well_formed() by {
                if let Some(o) = wv[k] {
                    crate::save::lemma_write_outcome_is_shown::<T>(o);
                }
            }
            assert(all == all_written(wv));
            if all {
                assert forall|k: int| 0 <= k < n implies !#[trigger] target.saves[k].dirty by {
                    assert(!(wv[k] matches Some(Err(_))));
                }
            } else {
                let k = choose|k: int| 0 <= k < n && (#[trigger] wv[k] matches Some(Err(_)));
                assert(target.saves[k].dirty);
            }
        }
        *self = Workspace { infos, docs, active, error };
        all
    }

    /// Closes the tab at `index` after the outcome of saving it: `written` is the outcome of
    /// the write its document was handed to, given exactly when it had unsaved edits. A
    /// failed write keeps the tab open with its text, records the failure and makes the
    /// tab active; otherwise the tab is removed and its document returned.
    pub fn close_tab(&mut self, index: usize, written: Option<Result<(), String>>) -> (closed: Option<D>)
        requires
            index < old(self)@.len(),
            written is Some <==> old(self)@.saves[index as int].dirty,
        ensures
            match written {
                Some(Err(message)) => {
                    &&& closed is None
                    &&& final(self)@ == (WorkspaceView {
                        saves: old(self)@.saves.update(
                            index as int,
                            SaveView::<T>::written(Err(message@)),
                        ),
                        active: Some(index),
                        ..old(self)@
                    })
                },
                _ => {
                    &&& closed == Some(old(self)@.documents[index as int])
                    &&& final(self)@ == old(self)@.without_tab(index)
                },
            },
            final(self)@.well_formed(),
    {
        let ghost old_view = self@;
        match written {
            Some(outcome) => {
                let saved = self.record_write(index, outcome);
                if !saved {
                    proof { use_type_invariant(&*self); }
                    self.active = Some(index);
                    proof { use_type_invariant(&*self); }
                    return None;
                }
            },
            None => {},
        }
        let ghost mid = self@;
        let doc = self.remove_tab(index);
        proof {
            assert(mid.documents.remove(index as int) =~= old_view.documents.remove(index as int));
            assert(mid.keys.remove(index as int) =~= old_view.keys.remove(index as int));
            assert(mid.saves.remove(index as int) =~= old_view.saves.remove(index as int));
        }
        Some(doc)
    }

    /// Applies the outcome of deleting the file with canonical path bytes `key`. When the
    /// file was deleted, a tab showing it is closed without saving, unless what was
    /// deleted was a symbolic link, whose target stays open; the error is cleared.
    /// When it could not be deleted, the tabs are kept and the error is recorded.
    pub fn after_delete(&mut self, key: &[u8], was_symlink: bool, outcome: Result<(), String>) -> (closed: Option<D>)
        ensures
            match outcome {
                Err(e) => closed is None && final(self)@ == old(self)@.with_error(Some(e@)),
                Ok(()) => if !was_symlink && old(self)@.keys.contains(key@) {
                    exists|p: int| 0 <= p < old(self)@.len() && old(self)@.keys[p] == key@
                        && closed == Some(old(self)@.documents[p])
                        && final(self)@ == old(self)@.without_tab(p as usize).with_error(None)
                } else {
                    closed is None && final(self)@ == old(self)@.with_error(None)
                },
            },
            final(self)@.well_formed(),
    {
        proof { use_type_invariant(&*self); }
        match outcome {
            Err(e) => {
                self.error = Some(e);
                proof { use_type_invariant(&*self); }
                None
            },
            Ok(()) => {
                let mut closed = None;
                if !was_symlink {
                    match self.position(key) {
                        Some(p) => {
                            closed = Some(self.remove_tab(p));
                        },
                        None => {},
                    }
                }
                proof { use_type_invariant(&*self); }
                self.error = None;
                proof { use_type_invariant(&*self); }
                closed
            },
        }
    }

    pub fn is_dirty(&self, index: usize) -> (d: bool)
        requires
            index < self@.len(),
        ensures
            d == self@.saves[index as int].dirty,
    {
        proof { use_type_invariant(self); }
        self.infos[index].save.is_dirty()
    }

    pub fn status(&self, index: usize) -> (s: SaveStatus)
        requires
            index < self@.len(),
        ensures
            s == self@.saves[index as int].status(),
    {
        proof { use_type_invariant(self); }
        self.infos[index].save.status()
    }

    pub fn tab_marker(&self, index: usize) -> (m: &'static str)
        requires
            index < self@.len(),
        ensures
            self@.saves[index as int].error is Some ==> m@ == " !"@,
            self@.saves[index as int].error is None && self@.saves[index as int].dirty ==> m@ == " \u{2022}"@,
            self@.saves[index as int].error is None && !self@.saves[index as int].dirty ==> m@ == ""@,
    {
        proof { use_type_invariant(self); }
        self.infos[index].save.tab_marker()
    }

    pub fn save_error(&self, index: usize) -> (e: Option<&str>)
        requires
            index < self@.len(),
        ensures
            match self@.saves[index as int].error {
                Some(msg) => e matches Some(s) && s@ == msg,
                None => e is None,
            },
    {
        proof { use_type_invariant(self); }
        self.infos[index].save.error()
    }

    pub fn dirty_since(&self, index: usize) -> (t: Option<&T>)
        requires
            index < self@.len(),
        ensures
            t == (match self@.saves[index as int].dirty_since {
                Some(x) => Some(&x),
                None => None::<&T>,
            }),
    {
        proof { use_type_invariant(self); }
        self.infos[index].save.dirty_since()
    }

    /// The window's error message, if any.
    pub fn error(&self) -> (e: Option<&str>)
        ensures
            match self@.error {
                Some(msg) => e matches Some(s) && s@ == msg,
                None => e is None,
            },
    {
        match &self.error {
            Some(msg) => Some(msg.as_str()),
            None => None,
        }
    }

    /// The messages for the error panel: the window's error, then each tab's save error.
    pub fn errors(&self) -> (lines: Vec<String>)
        ensures
            lines@.map_values(|l: String| l@) == self@.error_lines(),
    {
        proof { use_type_invariant(self); }
        let mut lines: Vec<String> = Vec::new();
        match &self.error {
            Some(e) => lines.push(e.clone()),
            None => {},
        }
        let ghost first = lines@.map_values(|l: String| l@);
        let mut i: usize = 0;
        while i < self.infos.len()
            invariant
                i <= self.infos@.len(),
                self@.saves.len() == self.infos@.len(),
                first == (match self@.error {
                    Some(e) => seq![e],
                    None => Seq::<Seq<char>>::empty(),
                }),
                lines@.map_values(|l: String| l@) == first + save_errors(self@.saves.subrange(0, i as int)),
            decreases self.infos@.len() - i,
        {
            let ghost before = lines@;
            let ghost saves = self@.saves;
            proof {
                assert(saves.subrange(0, i + 1).drop_last() =~= saves.subrange(0, i as int));
                assert(saves.subrange(0, i + 1).last() == saves[i as int]);
                assert(saves[i as int] == self.infos@[i as int].save@);
            }
            match self.infos[i].save.error() {
                Some(e) => {
                    lines.push(e.to_owned());
                    proof {
                        assert(lines@.map_values(|l: String| l@) =~= before.map_values(|l: String| l@).push(e@));
                    }
                },
                None => {
                    proof {
                        assert(lines@ == before);
                    }
                },
            }
            i += 1;
        }
        proof {
            assert(self@.saves.subrange(0, self@.saves.len() as int) =~= self@.saves);
        }
        lines
    }

    pub fn set_error(&mut self, message: String)
        ensures
            final(self)@ == old(self)@.with_error(Some(message@)),
    {
        proof { use_type_invariant(&*self); }
        self.error = Some(message);
    }

    pub fn dismiss_error(&mut self)
        ensures
            final(self)@ == old(self)@.with_error(None),
    {
        proof { use_type_invariant(&*self); }
        self.error = None;
    }
}

/// Closing a tab other than the active one keeps the same document active.
pub proof fn lemma_closing_other_tab_keeps_active<D, T>(w: WorkspaceView<D, T>, index: usize)
    requires
        w.well_formed(),
        index < w.len(),
        w.active is Some,
        w.active->0 != index,
    ensures
        ({
            let next = w.without_tab(index);
            &&& next.active matches Some(b)
            &&& next.documents[b as int] == w.documents[w.active->0 as int]
            &&& next.keys[b as int] == w.keys[w.active->0 as int]
        }),
{
    let a = w.active->0;
    let next = w.without_tab(index);
    if a > index {
        assert(next.documents[a - 1] == w.documents[a as int]);
        assert(next.keys[a - 1] == w.keys[a as int]);
    } else {
        assert(next.documents[a as int] == w.documents[a as int]);
        assert(next.keys[a as int] == w.keys[a as int]);
    }
}

/// Closing the active tab, when other tabs are left, makes active the tab that took its
/// place (the one that followed it), or, when it was the last tab, the new last one (the
/// one before it): the active index becomes the smaller of the closed index and the new
/// last index.
pub proof fn lemma_closing_active_tab_selects_its_neighbour<D, T>(w: WorkspaceView<D, T>, index: usize)
    requires
        w.well_formed(),
        index < w.len(),
        w.active == Some(index),
        w.len() > 1,
    ensures
        ({
            let next = w.without_tab(index);
            &&& next.active matches Some(b)
            &&& b as int == (if (index as int) < w.len() - 1 { index as int } else { w.len() - 2 })
            &&& (index + 1 < w.len() ==> next.documents[b as int] == w.documents[index + 1]
                && next.keys[b as int] == w.keys[index + 1])
            &&& (index + 1 == w.len() ==> next.documents[b as int] == w.documents[index - 1]
                && next.keys[b as int] == w.keys[index - 1])
        }),
{
}

/// Removing a tab from a well-formed window leaves a well-formed window: a tab is active
/// exactly when one is left, and it is one of them.
pub proof fn lemma_removal_keeps_active_valid<D, T>(w: WorkspaceView<D, T>, index: usize)
    requires
        w.well_formed(),
        index < w.len(),
    ensures
        w.without_tab(index).well_formed(),
{
    let next = w.without_tab(index);
    assert forall|i: int, j: int|
        0 <= i < next.keys.len() && 0 <= j < next.keys.len() && i != j
        implies next.keys[i] != next.keys[j] by {
        let oi = if i < index { i } else { i + 1 };
        let oj = if j < index { j } else { j + 1 };
        assert(next.keys[i] == w.keys[oi]);
        assert(next.keys[j] == w.keys[oj]);
    }
    assert forall|i: int| 0 <= i < next.saves.len() implies #[trigger] next.saves[i].well_formed() by {
        let oi = if i < index { i } else { i + 1 };
        assert(next.saves[i] == w.saves[oi]);
    }
}

} // verus!
