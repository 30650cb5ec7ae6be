use std::cell::RefCell;
use std::collections::HashMap;
use std::rc::Rc;

use glyphwire::save::{autosave_step, AutosaveStep, SaveStatus, AUTO_SAVE_DELAY_NANOS};
use glyphwire::workspace::Workspace;

type Disk = Rc<RefCell<HashMap<String, String>>>;

struct MemDoc {
    path: String,
    text: String,
    show_raw: bool,
    scroll_fraction: f32,
    disk: Disk,
}

impl MemDoc {
    fn write_out(&self) -> Result<(), String> {
        let mut disk = self.disk.borrow_mut();
        match disk.get_mut(&self.path) {
            // Like opening without `create`: a deleted file is not written again.
            Some(contents) => {
                *contents = self.text.clone();
                Ok(())
            }
            None => Err(format!("Could not save {}: not found", self.path)),
        }
    }
}

fn disk(files: &[(&str, &str)]) -> Disk {
    Rc::new(RefCell::new(
        files.iter().map(|(p, t)| (p.to_string(), t.to_string())).collect(),
    ))
}

fn load(ws: &mut Workspace<MemDoc, u64>, disk: &Disk, path: &str) {
    if ws.select_path(path.as_bytes()) {
        return;
    }
    let opened = match disk.borrow().get(path) {
        Some(text) => Ok(MemDoc {
            path: path.to_string(),
            text: text.clone(),
            show_raw: true,
            scroll_fraction: 0.0,
            disk: disk.clone(),
        }),
        None => Err(format!("Could not read {path}: not found")),
    };
    ws.add_opened(path.as_bytes().to_vec(), opened);
}

fn write_if_dirty(ws: &Workspace<MemDoc, u64>, index: usize) -> Option<Result<(), String>> {
    if ws.is_dirty(index) {
        Some(ws.document(index).write_out())
    } else {
        None
    }
}

fn save_now(ws: &mut Workspace<MemDoc, u64>, index: usize) -> bool {
    match write_if_dirty(ws, index) {
        Some(outcome) => ws.record_write(index, outcome),
        None => true,
    }
}

fn save_all(ws: &mut Workspace<MemDoc, u64>) -> bool {
    let written = (0..ws.len()).map(|index| write_if_dirty(ws, index)).collect();
    ws.save_all(written)
}

fn close_tab(ws: &mut Workspace<MemDoc, u64>, index: usize) -> Option<MemDoc> {
    let written = write_if_dirty(ws, index);
    ws.close_tab(index, written)
}

fn save_if_due(ws: &mut Workspace<MemDoc, u64>, index: usize, now: u64) -> AutosaveStep {
    let elapsed = ws.dirty_since(index).map_or(0, |since| (now - since) as u128);
    let step = ws.autosave_step(index, elapsed);
    if step == AutosaveStep::SaveNow {
        let outcome = ws.document(index).write_out();
        ws.record_write(index, outcome);
    }
    step
}

fn read(disk: &Disk, path: &str) -> Option<String> {
    disk.borrow().get(path).cloned()
}

#[test]
fn tabs_preserve_buffers_visibility_scroll_and_autosave_in_background() {
    let disk = disk(&[("first.md", "First"), ("second.md", "Second")]);
    let mut ws: Workspace<MemDoc, u64> = Workspace::new();
    load(&mut ws, &disk, "first.md");
    ws.document_mut(0).text.push_str(" edited");
    ws.document_mut(0).show_raw = false;
    ws.document_mut(0).scroll_fraction = 0.6;
    ws.schedule_save(0, 1);
    load(&mut ws, &disk, "second.md");
    ws.document_mut(1).text.push_str(" edited too");
    ws.schedule_save(1, 2);
    for index in 0..ws.len() {
        save_if_due(&mut ws, index, 2 + AUTO_SAVE_DELAY_NANOS);
    }
    assert_eq!(read(&disk, "first.md").unwrap(), "First edited");
    assert_eq!(read(&disk, "second.md").unwrap(), "Second edited too");
    load(&mut ws, &disk, "first.md");
    assert_eq!(ws.len(), 2);
    assert_eq!(ws.active(), Some(0));
    assert!(!ws.document(0).show_raw);
    assert_eq!(ws.document(0).scroll_fraction, 0.6);
    assert_eq!(ws.document(0).text, "First edited");
}

#[test]
fn closing_tabs_saves_and_keeps_a_valid_active_index() {
    let disk = disk(&[("first.md", "First"), ("second.md", "Second"), ("third.md", "Third")]);
    let mut ws: Workspace<MemDoc, u64> = Workspace::new();
    load(&mut ws, &disk, "first.md");
    ws.document_mut(0).text = "Saved on close".into();
    ws.schedule_save(0, 1);
    load(&mut ws, &disk, "second.md");
    load(&mut ws, &disk, "third.md");
    assert!(close_tab(&mut ws, 0).is_some());
    assert_eq!(ws.active(), Some(1));
    assert_eq!(ws.active_document().unwrap().path, "third.md");
    assert_eq!(read(&disk, "first.md").unwrap(), "Saved on close");
    close_tab(&mut ws, 1);
    assert_eq!(ws.active(), Some(0));
    close_tab(&mut ws, 0);
    assert_eq!(ws.active(), None);
    assert!(ws.is_empty());
}

#[test]
fn save_failure_keeps_tab_and_unsaved_text_and_does_not_block_other_saves() {
    let disk = disk(&[("first.md", "First"), ("second.md", "Second")]);
    let mut ws: Workspace<MemDoc, u64> = Workspace::new();
    load(&mut ws, &disk, "first.md");
    ws.document_mut(0).text = "Unsaved".into();
    ws.schedule_save(0, 1);
    disk.borrow_mut().remove("first.md");
    load(&mut ws, &disk, "second.md");
    ws.document_mut(1).text = "Saved".into();
    ws.schedule_save(1, 2);
    assert!(!save_all(&mut ws));
    assert_eq!(read(&disk, "second.md").unwrap(), "Saved");
    assert!(close_tab(&mut ws, 0).is_none());
    assert_eq!(ws.len(), 2);
    assert_eq!(ws.active(), Some(0));
    assert_eq!(ws.document(0).text, "Unsaved");
    assert!(ws.is_dirty(0));
    assert!(ws.save_error(0).is_some());
    assert_eq!(ws.status(0), SaveStatus::Failed);
    assert_eq!(ws.tab_marker(0), " !");
    assert!(read(&disk, "first.md").is_none(), "Autosave must not resurrect a deleted file");
}

#[test]
fn deleting_an_open_dirty_file_closes_it_without_recreating_it() {
    let disk = disk(&[("delete.md", "Original")]);
    let mut ws: Workspace<MemDoc, u64> = Workspace::new();
    load(&mut ws, &disk, "delete.md");
    ws.document_mut(0).text = "Unsaved".into();
    ws.schedule_save(0, 1);
    disk.borrow_mut().remove("delete.md");
    let closed = ws.after_delete(b"delete.md", false, Ok(()));
    assert_eq!(closed.unwrap().text, "Unsaved");
    assert!(read(&disk, "delete.md").is_none());
    assert!(ws.is_empty());
    assert_eq!(ws.active(), None);
    assert!(save_all(&mut ws));
    assert!(read(&disk, "delete.md").is_none());
    assert!(ws.after_delete(b"other.txt", false, Ok(())).is_none());
    assert!(ws.error().is_none());
}

#[test]
fn failed_delete_preserves_open_document() {
    let disk = disk(&[("keep.md", "Keep me")]);
    let mut ws: Workspace<MemDoc, u64> = Workspace::new();
    load(&mut ws, &disk, "keep.md");
    let closed = ws.after_delete(b"keep.md", false, Err("Could not delete keep.md: is a directory".into()));
    assert!(closed.is_none());
    assert!(ws.error().is_some());
    assert_eq!(ws.len(), 1);
    assert_eq!(ws.active_document().unwrap().text, "Keep me");
}

#[test]
fn deleting_a_symlink_leaves_target_and_its_buffer_intact() {
    let disk = disk(&[("target.md", "Keep me")]);
    let mut ws: Workspace<MemDoc, u64> = Workspace::new();
    load(&mut ws, &disk, "target.md");
    // The link resolves to the target, which is already open.
    load(&mut ws, &disk, "target.md");
    assert_eq!(ws.len(), 1);
    assert!(ws.after_delete(b"target.md", true, Ok(())).is_none());
    assert!(read(&disk, "target.md").is_some());
    assert_eq!(ws.len(), 1);
}

#[test]
fn unreadable_file_does_not_replace_current_tab() {
    let disk = disk(&[("keep.md", "Keep me")]);
    let mut ws: Workspace<MemDoc, u64> = Workspace::new();
    load(&mut ws, &disk, "keep.md");
    load(&mut ws, &disk, "missing.md");
    assert_eq!(ws.len(), 1);
    assert_eq!(ws.active(), Some(0));
    assert_eq!(ws.active_document().unwrap().text, "Keep me");
    assert!(ws.error().is_some());
    load(&mut ws, &disk, "keep.md");
    assert!(ws.error().is_some());
    ws.dismiss_error();
    assert!(ws.error().is_none());
}

#[test]
fn removing_tabs_moves_the_active_index() {
    let disk = disk(&[("a.md", "A"), ("b.md", "B"), ("c.md", "C"), ("d.md", "D")]);
    let mut ws: Workspace<MemDoc, u64> = Workspace::new();
    for path in ["a.md", "b.md", "c.md", "d.md"] {
        load(&mut ws, &disk, path);
    }
    assert_eq!(ws.active(), Some(3));
    ws.select(1);
    ws.remove_tab(3);
    assert_eq!(ws.active(), Some(1));
    assert_eq!(ws.active_document().unwrap().path, "b.md");
    ws.remove_tab(0);
    assert_eq!(ws.active(), Some(0));
    assert_eq!(ws.active_document().unwrap().path, "b.md");
    ws.remove_tab(0);
    assert_eq!(ws.active_document().unwrap().path, "c.md");
    ws.select(7);
    assert_eq!(ws.active(), Some(0));
    assert_eq!(ws.position(b"c.md"), Some(0));
    assert_eq!(ws.position(b"a.md"), None);
}

#[test]
fn autosave_waits_for_the_delay() {
    assert_eq!(autosave_step(None), AutosaveStep::Idle);
    assert_eq!(autosave_step(Some(0)), AutosaveStep::WaitNanos(400_000_000));
    assert_eq!(autosave_step(Some(150_000_000)), AutosaveStep::WaitNanos(250_000_000));
    assert_eq!(autosave_step(Some(400_000_000)), AutosaveStep::SaveNow);
    assert_eq!(autosave_step(Some(u128::MAX)), AutosaveStep::SaveNow);
    assert_eq!(SaveStatus::Failed.label(), "SAVE FAILED");
    assert_eq!(SaveStatus::Saving.label(), "SAVING");
    assert_eq!(SaveStatus::Saved.label(), "SAVED");
}

#[test]
fn edits_are_pending_until_written() {
    let disk = disk(&[("n.md", "N")]);
    let mut ws: Workspace<MemDoc, u64> = Workspace::new();
    load(&mut ws, &disk, "n.md");
    assert_eq!(ws.status(0), SaveStatus::Saved);
    assert_eq!(ws.tab_marker(0), "");
    ws.document_mut(0).text = "N2".into();
    ws.schedule_save(0, 42);
    assert_eq!(ws.status(0), SaveStatus::Saving);
    assert_eq!(ws.tab_marker(0), " •");
    assert_eq!(ws.dirty_since(0), Some(&42));
    assert_eq!(save_if_due(&mut ws, 0, 43), AutosaveStep::WaitNanos(399_999_999));
    assert_eq!(read(&disk, "n.md").unwrap(), "N");
    assert!(save_now(&mut ws, 0));
    assert_eq!(read(&disk, "n.md").unwrap(), "N2");
    assert_eq!(ws.dirty_since(0), None);
    assert!(!ws.is_dirty(0));
    ws.set_error("Could not open a new window".into());
    assert_eq!(ws.error(), Some("Could not open a new window"));
}

#[test]
fn error_panel_lists_the_window_error_then_each_failed_save() {
    let disk = disk(&[("a.md", "A"), ("b.md", "B"), ("c.md", "C")]);
    let mut ws: Workspace<MemDoc, u64> = Workspace::new();
    load(&mut ws, &disk, "a.md");
    load(&mut ws, &disk, "b.md");
    load(&mut ws, &disk, "c.md");
    assert!(ws.errors().is_empty());
    disk.borrow_mut().remove("a.md");
    disk.borrow_mut().remove("c.md");
    for index in 0..3 {
        ws.schedule_save(index, 7);
    }
    assert!(!save_all(&mut ws));
    load(&mut ws, &disk, "missing.md");
    assert_eq!(
        ws.errors(),
        vec![
            "Could not read missing.md: not found".to_string(),
            "Could not save a.md: not found".to_string(),
            "Could not save c.md: not found".to_string(),
        ]
    );
    ws.dismiss_error();
    assert_eq!(ws.errors().len(), 2);
}

#[test]
fn saving_again_after_a_save_writes_nothing() {
    let disk = disk(&[("a.md", "A")]);
    let mut ws: Workspace<MemDoc, u64> = Workspace::new();
    load(&mut ws, &disk, "a.md");
    ws.document_mut(0).text.push_str(" edited");
    ws.schedule_save(0, 3);
    assert!(save_now(&mut ws, 0));
    assert_eq!(read(&disk, "a.md").unwrap(), "A edited");
    disk.borrow_mut().insert("a.md".to_string(), "changed elsewhere".to_string());
    assert!(save_now(&mut ws, 0));
    assert_eq!(read(&disk, "a.md").unwrap(), "changed elsewhere");
    assert_eq!(ws.status(0), SaveStatus::Saved);
}

#[test]
fn each_write_outcome_is_recorded_as_it_came_back() {
    let disk = disk(&[("a.md", "A"), ("b.md", "B"), ("c.md", "C")]);
    let mut ws: Workspace<MemDoc, u64> = Workspace::new();
    for path in ["a.md", "b.md", "c.md"] {
        load(&mut ws, &disk, path);
    }
    ws.schedule_save(0, 1);
    ws.schedule_save(2, 1);
    assert_eq!(ws.autosave_step(1, 5_000_000_000), AutosaveStep::Idle);
    assert_eq!(ws.autosave_step(0, AUTO_SAVE_DELAY_NANOS as u128), AutosaveStep::SaveNow);
    assert!(!ws.record_write(0, Err("disk full".into())));
    assert_eq!(ws.save_error(0), Some("disk full"));
    assert!(ws.is_dirty(0));
    assert_eq!(ws.dirty_since(0), None);
    assert_eq!(ws.autosave_step(0, u128::MAX), AutosaveStep::Idle);
    assert!(!ws.save_all(vec![Some(Ok(())), None, Some(Err("read-only".into()))]));
    assert!(!ws.is_dirty(0));
    assert_eq!(ws.save_error(2), Some("read-only"));
    assert_eq!(ws.document(2).text, "C");
    assert!(ws.close_tab(2, Some(Err("still read-only".into()))).is_none());
    assert_eq!(ws.active(), Some(2));
    assert_eq!(ws.save_error(2), Some("still read-only"));
    let closed = ws.close_tab(2, Some(Ok(())));
    assert_eq!(closed.unwrap().path, "c.md");
    assert!(ws.save_all(vec![None, None]));
}
