use xuan::document::Document;
use xuan::editing::{close_text_dialog, TextEdit, TextOutcome};
use xuan::history::{Entry, History};

type Doc = Document<()>;

fn nothing_retained(_stack: &[Entry<Doc>]) -> usize {
    0
}

#[test]
fn saved_state_tracks_undo_and_divergent_edits() {
    let mut doc: Doc = Document::new(10, 10, ()).unwrap();
    let mut history: History<Doc> = History::default();
    history.begin("Rename".to_string(), doc.clone());
    doc.layers[0].name = "Renamed".into();
    history.commit(nothing_retained);
    history.mark_saved();
    assert!(!history.dirty());
    assert!(history.undo(&mut doc, nothing_retained));
    assert!(history.dirty());
    assert_eq!(doc.layers[0].name, "Layer 1");
    assert!(history.redo(&mut doc));
    assert!(!history.dirty());
    history.undo(&mut doc, nothing_retained);
    history.begin("Different edit".to_string(), doc.clone());
    doc.layers[0].name = "Other".into();
    history.commit(nothing_retained);
    assert!(history.dirty());
    assert!(!history.redo(&mut doc));
}

#[test]
fn redo_after_undo_restores_the_edit_and_the_names() {
    let mut doc: Doc = Document::new(4, 4, ()).unwrap();
    let mut history: History<Doc> = History::new();
    assert_eq!(history.undo_name(), None);
    history.begin("First".to_string(), doc.clone());
    doc.layers[0].name = "One".into();
    history.commit(nothing_retained);
    history.begin("Second".to_string(), doc.clone());
    doc.layers[0].name = "Two".into();
    history.commit(nothing_retained);
    assert_eq!(history.names(), vec!["Second", "First"]);
    assert_eq!(history.undo_name(), Some("Second"));
    let revision = history.revision();
    assert!(history.undo(&mut doc, nothing_retained));
    assert_eq!(doc.layers[0].name, "One");
    assert_eq!(history.redo_name(), Some("Second"));
    assert!(history.redo(&mut doc));
    assert_eq!(doc.layers[0].name, "Two");
    assert_eq!(history.revision(), revision);
    assert_eq!(history.redo_name(), None);
}

#[test]
fn a_second_begin_keeps_the_first_snapshot_and_cancel_restores_it() {
    let mut doc: Doc = Document::new(4, 4, ()).unwrap();
    let mut history: History<Doc> = History::new();
    history.begin("Edit".to_string(), doc.clone());
    doc.layers[0].name = "Changed".into();
    history.begin("Ignored".to_string(), doc.clone());
    doc.layers[0].name = "Changed again".into();
    assert!(history.dirty());
    history.cancel(&mut doc);
    assert_eq!(doc.layers[0].name, "Layer 1");
    assert!(!history.dirty());
    assert_eq!(history.undo_name(), None);
}

#[test]
fn undo_commits_a_pending_transaction_first() {
    let mut doc: Doc = Document::new(4, 4, ()).unwrap();
    let mut history: History<Doc> = History::new();
    history.begin("Edit".to_string(), doc.clone());
    doc.layers[0].name = "Changed".into();
    assert!(history.undo(&mut doc, nothing_retained));
    assert_eq!(doc.layers[0].name, "Layer 1");
    assert!(history.redo(&mut doc));
    assert_eq!(doc.layers[0].name, "Changed");
}

#[test]
fn trimming_keeps_at_most_sixty_four_steps() {
    let mut doc: Doc = Document::new(4, 4, ()).unwrap();
    let mut history: History<Doc> = History::new();
    for i in 0..70 {
        history.begin(format!("Step {i}"), doc.clone());
        doc.layers[0].name = format!("Name {i}");
        history.commit(nothing_retained);
    }
    assert_eq!(history.names().len(), 64);
    assert_eq!(history.names()[63], "Step 6");
}

#[test]
fn trimming_drops_steps_over_the_byte_budget_but_keeps_one() {
    let mut doc: Doc = Document::new(4, 4, ()).unwrap();
    let mut history: History<Doc> = History::new();
    let huge = |stack: &[Entry<Doc>]| stack.len() * 300 * 1024 * 1024;
    for i in 0..3 {
        history.begin(format!("Step {i}"), doc.clone());
        doc.layers[0].name = format!("Name {i}");
        history.commit(huge);
    }
    assert_eq!(history.names(), vec!["Step 2"]);
}

#[test]
fn mark_modified_needs_saving_without_an_undo_step() {
    let mut history: History<Doc> = History::new();
    assert!(!history.dirty());
    history.mark_modified();
    assert!(history.dirty());
    assert_eq!(history.undo_name(), None);
    history.mark_saved();
    assert!(!history.dirty());
}

#[test]
fn closing_the_text_dialog_commits_or_rolls_back_the_edit() {
    let mut doc: Doc = Document::new(10, 10, ()).unwrap();
    let mut history: History<Doc> = History::new();
    let target = doc.layers[0].id;
    history.begin("Edit Text".to_string(), doc.clone());
    doc.layers[0].name = "Hello".into();
    let open = TextEdit { target, changed: true, has_error: true };
    assert_eq!(close_text_dialog(&mut history, &mut doc, true, Some(open), nothing_retained), TextOutcome::KeepOpen);
    assert!(history.dirty());
    let edit = TextEdit { target, changed: true, has_error: false };
    assert_eq!(close_text_dialog(&mut history, &mut doc, true, Some(edit), nothing_retained), TextOutcome::Apply);
    assert_eq!(history.undo_name(), Some("Edit Text"));
    assert_eq!(doc.active, Some(target));
    assert_eq!(doc.layers[0].name, "Hello");
    history.begin("Edit Text".to_string(), doc.clone());
    doc.layers[0].name = "Draft".into();
    assert_eq!(close_text_dialog(&mut history, &mut doc, false, Some(edit), nothing_retained), TextOutcome::Discard);
    assert_eq!(doc.layers[0].name, "Hello");
    assert_eq!(history.names(), vec!["Edit Text"]);
    assert_eq!(close_text_dialog(&mut history, &mut doc, true, None, nothing_retained), TextOutcome::NothingOpen);
}

#[test]
fn every_commit_takes_a_revision_never_held_before() {
    let mut doc: Doc = Document::new(4, 4, ()).unwrap();
    let mut history: History<Doc> = History::new();
    let mut held = vec![history.revision()];
    history.begin("One".to_string(), doc.clone());
    history.commit(nothing_retained);
    held.push(history.revision());
    history.begin("Two".to_string(), doc.clone());
    history.commit(nothing_retained);
    held.push(history.revision());
    assert!(history.undo(&mut doc, nothing_retained));
    assert_eq!(history.revision(), held[1]);
    assert!(history.undo(&mut doc, nothing_retained));
    assert_eq!(history.revision(), held[0]);
    history.begin("Three".to_string(), doc.clone());
    history.commit(nothing_retained);
    assert!(!held.contains(&history.revision()));
    assert!(history.revision() > held[2]);
    // Committing without a pending transaction allocates nothing.
    let now = history.revision();
    history.commit(nothing_retained);
    assert_eq!(history.revision(), now);
}
