//! Closing the text dialog: whether the edit is kept, discarded, or the
//! dialog stays open, and what that does to the document and its history.
use vstd::prelude::*;

use crate::document::Document;
use crate::history::{committed, Entry, History, HistoryState};

verus! {

/// What closing the text dialog does.
#[derive(Clone, Copy, Debug, PartialEq, Eq, Structural)]
pub enum TextOutcome {
    /// No text edit is open: nothing happens.
    NothingOpen,
    /// The edit cannot be applied while its text has an error; the dialog stays.
    KeepOpen,
    /// Commit the edited text as an undo step and select its layer.
    Apply,
    /// Roll the document back to before the edit.
    Discard,
}

/// The open text edit, as far as closing it depends on it.
#[derive(Clone, Copy, Debug, PartialEq, Eq, Structural)]
pub struct TextEdit {
    /// The text layer being edited.
    pub target: u128,
    /// The text or its style was changed since the dialog opened.
    pub changed: bool,
    /// The last attempt to lay the text out failed.
    pub has_error: bool,
}

/// The outcome of closing the text dialog, applying the edit or not.
pub open spec fn outcome(apply: bool, edit: Option<TextEdit>) -> TextOutcome {
    match edit {
        None => TextOutcome::NothingOpen,
        Some(e) => if apply && e.has_error {
            TextOutcome::KeepOpen
        } else if apply && e.changed {
            TextOutcome::Apply
        } else {
            TextOutcome::Discard
        },
    }
}

/// Decide what closing the text dialog does: an erroneous edit is not
/// applied and keeps the dialog open, a changed edit is applied when asked,
/// and anything else discards the edit.
pub fn finish_text(apply: bool, edit: Option<TextEdit>) -> (result: TextOutcome)
    ensures
        result == outcome(apply, edit),
{
    match edit {
        None => TextOutcome::NothingOpen,
        Some(e) => {
            if apply && e.has_error {
                TextOutcome::KeepOpen
            } else if apply && e.changed {
                TextOutcome::Apply
            } else {
                TextOutcome::Discard
            }
        },
    }
}

/// Close the text dialog on `document`, whose `history` holds the step that
/// opening the edit began. An applied edit selects its layer alone and is
/// committed as one undo step; a discarded edit is rolled back, restoring the
/// document as it was when the step began; otherwise nothing changes. The
/// result says which of these happened.
pub fn close_text_dialog<P, F: Fn(&[Entry<Document<P>>]) -> usize>(
    history: &mut History<Document<P>>,
    document: &mut Document<P>,
    apply: bool,
    edit: Option<TextEdit>,
    retained: F,
) -> (result: TextOutcome)
    requires
        forall|s: &[Entry<Document<P>>]| #[trigger] retained.requires((s,)),
        old(history)@.pending is Some ==> old(history)@.next < u64::MAX,
    ensures
        result == outcome(apply, edit),
        result == TextOutcome::Apply ==> {
            &&& final(document).active == Some(edit->0.target)
            &&& final(document).selected@ == set![edit->0.target]
            &&& final(document).layers == old(document).layers
            &&& final(document).id == old(document).id
            &&& final(document).width == old(document).width
            &&& final(document).height == old(document).height
            &&& committed(old(history)@, final(history)@, retained)
        },
        result == TextOutcome::Discard ==> {
            &&& final(history)@ == (HistoryState { pending: None, ..old(history)@ })
            &&& old(history)@.pending matches Some(e) ==> *final(document) == e.document
            &&& old(history)@.pending is None ==> *final(document) == *old(document)
        },
        (result == TextOutcome::NothingOpen || result == TextOutcome::KeepOpen) ==> *final(document) == *old(
            document,
        ) && final(history)@ == old(history)@,
{
    let result = finish_text(apply, edit);
    match result {
        TextOutcome::Apply => {
            document.select(edit.unwrap().target, false);
            history.commit(retained);
        },
        TextOutcome::Discard => {
            history.cancel(document);
        },
        _ => {},
    }
    result
}

} // verus!
