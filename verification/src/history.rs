//! Undo history with a single pending transaction and save-state tracking.
use vstd::prelude::*;

verus! {

/// At most this many undo steps are kept.
pub const MAX_STEPS: usize = 64;

/// Older undo steps are dropped while the retained snapshots exceed this many bytes.
pub const MAX_HISTORY_BYTES: usize = 512 * 1024 * 1024;

/// One undoable step: its name, the document it restores and that document's revision.
pub struct Entry<D> {
    pub name: String,
    pub document: D,
    pub revision: u64,
}

/// Undo and redo stacks of document snapshots. At most one transaction is
/// pending at a time; revisions identify document states for save tracking.
pub struct History<D> {
    undo: Vec<Entry<D>>,
    redo: Vec<Entry<D>>,
    pending: Option<Entry<D>>,
    revision: u64,
    saved_revision: u64,
    next_revision: u64,
}

/// The mathematical state of a `History`.
pub struct HistoryState<D> {
    pub undo: Seq<Entry<D>>,
    pub redo: Seq<Entry<D>>,
    pub pending: Option<Entry<D>>,
    pub revision: u64,
    pub saved: u64,
    pub next: u64,
}

impl<D> View for History<D> {
    type V = HistoryState<D>;

    closed spec fn view(&self) -> HistoryState<D> {
        HistoryState {
            undo: self.undo@,
            redo: self.redo@,
            pending: self.pending,
            revision: self.revision,
            saved: self.saved_revision,
            next: self.next_revision,
        }
    }
}

impl<D> History<D> {
    /// Every history is well formed: no revision it holds lies past the
    /// last one allocated.
    #[verifier::type_invariant]
    spec fn revisions_allocated(self) -> bool {
        well_formed(self@)
    }
}

/// Unsaved changes exist: the current revision is not the saved one, or a
/// transaction is still open.
pub open spec fn is_dirty<D>(h: HistoryState<D>) -> bool {
    h.revision != h.saved || h.pending is Some
}

/// Every revision held by the history has already been allocated.
pub open spec fn well_formed<D>(h: HistoryState<D>) -> bool {
    &&& h.revision <= h.next
    &&& h.saved <= h.next
    &&& (forall|i: int| 0 <= i < h.undo.len() ==> #[trigger] h.undo[i].revision <= h.next)
    &&& (forall|i: int| 0 <= i < h.redo.len() ==> #[trigger] h.redo[i].revision <= h.next)
    &&& (h.pending matches Some(e) ==> e.revision <= h.next)
}

/// Open a transaction that restores `document` (the state before the edit).
pub open spec fn begin_step<D>(h: HistoryState<D>, name: String, document: D) -> HistoryState<D> {
    if h.pending is None {
        HistoryState {
            pending: Some(Entry { name, document, revision: h.revision }),
            ..h
        }
    } else {
        h
    }
}

/// The undo stack after pushing the pending transaction, before any trimming.
pub open spec fn untrimmed<D>(h: HistoryState<D>) -> Seq<Entry<D>> {
    h.undo.push(h.pending->0)
}

/// Dropping the oldest step of `stack` is warranted: more than one step is
/// left and either the step limit or the byte budget (as `retained` measures
/// it) is exceeded.
pub open spec fn drop_warranted<D, F: Fn(&[Entry<D>]) -> usize>(stack: Seq<Entry<D>>, retained: F) -> bool {
    &&& stack.len() > 1
    &&& (stack.len() > MAX_STEPS || exists|s: &[Entry<D>], bytes: usize|
        s@ == stack && #[trigger] retained.ensures((s,), bytes) && bytes > MAX_HISTORY_BYTES)
}

/// Trimming may stop at `stack`: one step is left, or the step limit holds and
/// `retained` measured the stack within the byte budget.
pub open spec fn may_stop<D, F: Fn(&[Entry<D>]) -> usize>(stack: Seq<Entry<D>>, retained: F) -> bool {
    stack.len() == 1 || (stack.len() <= MAX_STEPS && exists|s: &[Entry<D>], bytes: usize|
        s@ == stack && #[trigger] retained.ensures((s,), bytes) && bytes <= MAX_HISTORY_BYTES)
}

/// The state after committing the pending transaction when its `dropped`
/// oldest undo steps are removed.
pub open spec fn commit_step<D>(h: HistoryState<D>, dropped: int) -> HistoryState<D> {
    if h.pending is None {
        h
    } else {
        HistoryState {
            undo: untrimmed(h).skip(dropped),
            redo: Seq::empty(),
            pending: None,
            revision: (h.next + 1) as u64,
            saved: h.saved,
            next: (h.next + 1) as u64,
        }
    }
}

/// `new` results from committing `old`: the pending step is pushed, the oldest
/// steps are dropped exactly while that is warranted, and the redo stack is
/// cleared under a fresh revision.
pub open spec fn committed<D, F: Fn(&[Entry<D>]) -> usize>(
    old: HistoryState<D>,
    new: HistoryState<D>,
    retained: F,
) -> bool {
    if old.pending is None {
        new == old
    } else {
        exists|dropped: int|
            0 <= dropped < untrimmed(old).len() && new == commit_step(old, dropped) && (forall|j: int|
                0 <= j < dropped ==> #[trigger] drop_warranted(untrimmed(old).skip(j), retained))
                && may_stop(untrimmed(old).skip(dropped), retained)
    }
}

/// Undo on a state without a pending transaction: restore the newest undo
/// snapshot and keep the replaced document for redo.
pub open spec fn undo_step<D>(h: HistoryState<D>, document: D) -> (HistoryState<D>, D, bool) {
    if h.undo.len() == 0 {
        (h, document, false)
    } else {
        let e = h.undo.last();
        (
            HistoryState {
                undo: h.undo.drop_last(),
                redo: h.redo.push(Entry { name: e.name, document, revision: h.revision }),
                revision: e.revision,
                ..h
            },
            e.document,
            true,
        )
    }
}

/// Redo: restore the newest redo snapshot and keep the replaced document for undo.
pub open spec fn redo_step<D>(h: HistoryState<D>, document: D) -> (HistoryState<D>, D, bool) {
    if h.redo.len() == 0 {
        (h, document, false)
    } else {
        let e = h.redo.last();
        (
            HistoryState {
                redo: h.redo.drop_last(),
                undo: h.undo.push(Entry { name: e.name, document, revision: h.revision }),
                revision: e.revision,
                ..h
            },
            e.document,
            true,
        )
    }
}

impl<D> History<D> {
    /// An empty history of a saved document at revision 0.
    pub fn new() -> (history: Self)
        ensures
            history@.undo.len() == 0,
            history@.redo.len() == 0,
            history@.pending is None,
            history@.revision == 0,
            history@.saved == 0,
            history@.next == 0,
            well_formed(history@),
    {
        History { undo: Vec::new(), redo: Vec::new(), pending: None, revision: 0, saved_revision: 0, next_revision: 0 }
    }

    /// Start a transaction named `name` whose snapshot is `document`, the state
    /// before the edit. While a transaction is pending this does nothing.
    pub fn begin(&mut self, name: String, document: D)
        ensures
            final(self)@ == begin_step(old(self)@, name, document),
    {
        proof {
            use_type_invariant(&*self);
        }
        if self.pending.is_none() {
            self.pending = Some(Entry { name, document, revision: self.revision });
        }
    }

    /// Push the pending transaction (if any) onto the undo stack, drop the
    /// oldest steps beyond `MAX_STEPS` or while `retained` measures more than
    /// `MAX_HISTORY_BYTES` (always keeping one), clear redo and allocate a new
    /// revision, one that this history has never held.
    pub fn commit<F: Fn(&[Entry<D>]) -> usize>(&mut self, retained: F)
        requires
            forall|s: &[Entry<D>]| #[trigger] retained.requires((s,)),
            old(self)@.pending is Some ==> old(self)@.next < u64::MAX,
        ensures
            committed(old(self)@, final(self)@, retained),
            old(self)@.pending is Some ==> {
                &&& is_dirty(final(self)@)
                &&& final(self)@.revision != old(self)@.saved
                &&& final(self)@.revision > old(self)@.revision
                &&& forall|i: int|
                    0 <= i < old(self)@.undo.len() ==> final(self)@.revision != #[trigger] old(self)@.undo[i].revision
                &&& forall|i: int|
                    0 <= i < old(self)@.redo.len() ==> final(self)@.revision != #[trigger] old(self)@.redo[i].revision
            },
    {
        proof {
            use_type_invariant(&*self);
        }
        let ghost old_state = self@;
        if self.pending.is_some() {
            let mut pending: Option<Entry<D>> = None;
            std::mem::swap(&mut pending, &mut self.pending);
            let mut undo: Vec<Entry<D>> = Vec::new();
            std::mem::swap(&mut undo, &mut self.undo);
            let entry = pending.unwrap();
            undo.push(entry);
            let ghost full = undo@;
            assert(full == untrimmed(old_state));
            let ghost mut dropped: int = 0;
            while undo.len() > MAX_STEPS
                invariant
                    0 <= dropped < full.len(),
                    undo@ == full.skip(dropped),
                    forall|j: int| 0 <= j < dropped ==> #[trigger] drop_warranted(full.skip(j), retained),
                decreases undo.len(),
            {
                assert(drop_warranted(full.skip(dropped), retained));
                undo.remove(0);
                proof {
                    assert(undo@ == full.skip(dropped + 1));
                    dropped = dropped + 1;
                }
            }
            loop
                invariant
                    forall|s: &[Entry<D>]| #[trigger] retained.requires((s,)),
                    0 <= dropped < full.len(),
                    undo@ == full.skip(dropped),
                    undo@.len() <= MAX_STEPS,
                    forall|j: int| 0 <= j < dropped ==> #[trigger] drop_warranted(full.skip(j), retained),
                ensures
                    0 <= dropped < full.len(),
                    undo@ == full.skip(dropped),
                    forall|j: int| 0 <= j < dropped ==> #[trigger] drop_warranted(full.skip(j), retained),
                    may_stop(full.skip(dropped), retained),
                decreases undo.len(),
            {
                if undo.len() <= 1 {
                    break;
                }
                let stack = undo.as_slice();
                let bytes = retained(stack);
                if bytes <= MAX_HISTORY_BYTES {
                    assert(may_stop(full.skip(dropped), retained)) by {
                        assert(stack@ == full.skip(dropped));
                    }
                    break;
                }
                assert(drop_warranted(full.skip(dropped), retained)) by {
                    assert(stack@ == full.skip(dropped));
                }
                undo.remove(0);
                proof {
                    assert(undo@ == full.skip(dropped + 1));
                    dropped = dropped + 1;
                }
            }
            self.redo = Vec::new();
            self.next_revision = self.next_revision + 1;
            self.revision = self.next_revision;
            assert forall|i: int| 0 <= i < undo@.len() implies #[trigger] undo@[i].revision <= self.next_revision by {
                assert(undo@[i] == full[i + dropped]);
            }
            self.undo = undo;
            assert(self@ == commit_step(old_state, dropped));
        }
        proof {
            if old_state.pending is Some {
                lemma_commit_is_fresh(old_state, self@, retained);
            }
        }
    }

    /// Abandon the pending transaction, restoring the document it snapshotted.
    pub fn cancel(&mut self, document: &mut D)
        ensures
            old(self)@.pending matches Some(e) ==> *final(document) == e.document,
            old(self)@.pending is None ==> *final(document) == *old(document),
            final(self)@ == (HistoryState { pending: None, ..old(self)@ }),
    {
        proof {
            use_type_invariant(&*self);
        }
        let mut pending: Option<Entry<D>> = None;
        std::mem::swap(&mut pending, &mut self.pending);
        if let Some(entry) = pending {
            *document = entry.document;
        }
    }

    /// Commit any pending transaction, then restore the newest undo snapshot,
    /// keeping the replaced document for redo. Returns whether a step was undone.
    pub fn undo<F: Fn(&[Entry<D>]) -> usize>(&mut self, document: &mut D, retained: F) -> (undone: bool)
        requires
            forall|s: &[Entry<D>]| #[trigger] retained.requires((s,)),
            old(self)@.pending is Some ==> old(self)@.next < u64::MAX,
        ensures
            exists|mid: HistoryState<D>|
                committed(old(self)@, mid, retained) && undo_step(mid, *old(document)) == (
                    final(self)@,
                    *final(document),
                    undone,
                ),
    {
        let ghost start = self@;
        self.commit(retained);
        let ghost mid = self@;
        let ghost before = *document;
        proof {
            use_type_invariant(&*self);
        }
        let mut undo: Vec<Entry<D>> = Vec::new();
        std::mem::swap(&mut undo, &mut self.undo);
        let undone = match undo.pop() {
            Some(entry) => {
                assert(entry == mid.undo.last());
                let Entry { name, document: mut snapshot, revision } = entry;
                std::mem::swap(document, &mut snapshot);
                let mut redo: Vec<Entry<D>> = Vec::new();
                std::mem::swap(&mut redo, &mut self.redo);
                redo.push(Entry { name, document: snapshot, revision: self.revision });
                assert forall|i: int| 0 <= i < redo@.len() implies #[trigger] redo@[i].revision <= self.next_revision by {
                    if i < mid.redo.len() {
                        assert(redo@[i] == mid.redo[i]);
                    }
                }
                self.redo = redo;
                self.revision = revision;
                true
            },
            None => false,
        };
        assert forall|i: int| 0 <= i < undo@.len() implies #[trigger] undo@[i].revision <= self.next_revision by {
            assert(undo@[i] == mid.undo[i]);
        }
        self.undo = undo;
        assert(undone ==> self@ == undo_step(mid, before).0);
        assert(committed(start, mid, retained) && undo_step(mid, before) == (self@, *document, undone));
        undone
    }

    /// Restore the newest redo snapshot, keeping the replaced document for undo.
    /// Returns whether a step was redone.
    pub fn redo(&mut self, document: &mut D) -> (redone: bool)
        ensures
            redo_step(old(self)@, *old(document)) == (final(self)@, *final(document), redone),
    {
        let ghost before = *document;
        let ghost start = self@;
        proof {
            use_type_invariant(&*self);
        }
        let mut redo: Vec<Entry<D>> = Vec::new();
        assert(well_formed(HistoryState { redo: redo@, ..self@ }));
        std::mem::swap(&mut redo, &mut self.redo);
        let redone = match redo.pop() {
            Some(entry) => {
                assert(entry == start.redo.last());
                let Entry { name, document: mut snapshot, revision } = entry;
                std::mem::swap(document, &mut snapshot);
                let mut undo: Vec<Entry<D>> = Vec::new();
                std::mem::swap(&mut undo, &mut self.undo);
                undo.push(Entry { name, document: snapshot, revision: self.revision });
                assert forall|i: int| 0 <= i < undo@.len() implies #[trigger] undo@[i].revision <= self.next_revision by {
                    if i < start.undo.len() {
                        assert(undo@[i] == start.undo[i]);
                    }
                }
                self.undo = undo;
                self.revision = revision;
                true
            },
            None => false,
        };
        assert forall|i: int| 0 <= i < redo@.len() implies #[trigger] redo@[i].revision <= self.next_revision by {
            assert(redo@[i] == start.redo[i]);
        }
        self.redo = redo;
        assert(redone ==> self@ == redo_step(start, before).0);
        redone
    }

    /// Record the current revision as the saved one.
    pub fn mark_saved(&mut self)
        ensures
            final(self)@ == (HistoryState { saved: old(self)@.revision, ..old(self)@ }),
    {
        proof {
            use_type_invariant(&*self);
        }
        self.saved_revision = self.revision;
    }

    /// A newly imported document needs saving but has no earlier document to
    /// undo to: allocate a fresh revision without an undo step.
    pub fn mark_modified(&mut self)
        requires
            old(self)@.next < u64::MAX,
        ensures
            final(self)@ == (HistoryState {
                next: (old(self)@.next + 1) as u64,
                revision: (old(self)@.next + 1) as u64,
                ..old(self)@
            }),
    {
        proof {
            use_type_invariant(&*self);
        }
        self.next_revision = self.next_revision + 1;
        self.revision = self.next_revision;
    }

    /// The revision that identifies the current document state.
    pub fn revision(&self) -> (revision: u64)
        ensures
            revision == self@.revision,
    {
        self.revision
    }

    /// Whether the document differs from the saved revision or a transaction is open.
    pub fn dirty(&self) -> (dirty: bool)
        ensures
            dirty == is_dirty(self@),
    {
        self.revision != self.saved_revision || self.pending.is_some()
    }

    /// Name of the step that `undo` would revert.
    pub fn undo_name(&self) -> (name: Option<&str>)
        ensures
            self@.undo.len() == 0 ==> name is None,
            self@.undo.len() > 0 ==> (name matches Some(n) && n@ == self@.undo.last().name@),
    {
        if self.undo.len() == 0 {
            None
        } else {
            Some(self.undo[self.undo.len() - 1].name.as_str())
        }
    }

    /// Name of the step that `redo` would restore.
    pub fn redo_name(&self) -> (name: Option<&str>)
        ensures
            self@.redo.len() == 0 ==> name is None,
            self@.redo.len() > 0 ==> (name matches Some(n) && n@ == self@.redo.last().name@),
    {
        if self.redo.len() == 0 {
            None
        } else {
            Some(self.redo[self.redo.len() - 1].name.as_str())
        }
    }

    /// Names of the undo steps, newest first.
    pub fn names(&self) -> (names: Vec<&str>)
        ensures
            names.len() == self@.undo.len(),
            forall|i: int|
                0 <= i < names.len() ==> #[trigger] names[i]@ == self@.undo[self@.undo.len() - 1 - i].name@,
    {
        let mut names: Vec<&str> = Vec::new();
        let mut k: usize = self.undo.len();
        while k > 0
            invariant
                k <= self.undo.len(),
                names.len() == self.undo.len() - k,
                forall|i: int|
                    0 <= i < names.len() ==> #[trigger] names[i]@ == self@.undo[self@.undo.len() - 1 - i].name@,
            decreases k,
        {
            k = k - 1;
            names.push(self.undo[k].name.as_str());
        }
        names
    }
}

impl<D> Default for History<D> {
    fn default() -> (history: Self)
        ensures
            history@.undo.len() == 0,
            history@.redo.len() == 0,
            history@.pending is None,
            history@.revision == 0,
            history@.saved == 0,
            history@.next == 0,
            well_formed(history@),
    {
        History::new()
    }
}

/// Redo right after a successful undo gives back exactly the history and the
/// document that the undo started from.
pub proof fn lemma_redo_undoes_undo<D>(h: HistoryState<D>, document: D)
    requires
        undo_step(h, document).2,
    ensures
        redo_step(undo_step(h, document).0, undo_step(h, document).1) == (h, document, true),
{
    let (u, d, _) = undo_step(h, document);
    let e = h.undo.last();
    let (r, d2, ok) = redo_step(u, d);
    assert(u.redo.last() == Entry { name: e.name, document, revision: h.revision });
    assert(r.undo =~= h.undo);
    assert(r.redo =~= h.redo);
}

/// Undo right after a successful redo gives back exactly the history and the
/// document that the redo started from.
pub proof fn lemma_undo_undoes_redo<D>(h: HistoryState<D>, document: D)
    requires
        redo_step(h, document).2,
    ensures
        undo_step(redo_step(h, document).0, redo_step(h, document).1) == (h, document, true),
{
    let (r, d, _) = redo_step(h, document);
    let (u, d2, ok) = undo_step(r, d);
    assert(u.undo =~= h.undo);
    assert(u.redo =~= h.redo);
}

/// A commit keeps between one and `MAX_STEPS` undo steps, ends with the
/// committed snapshot, clears redo and closes the transaction.
pub proof fn lemma_commit_shape<D, F: Fn(&[Entry<D>]) -> usize>(
    old: HistoryState<D>,
    new: HistoryState<D>,
    retained: F,
)
    requires
        committed(old, new, retained),
        old.pending is Some,
    ensures
        1 <= new.undo.len() <= MAX_STEPS,
        new.undo.last() == old.pending->0,
        new.redo.len() == 0,
        new.pending is None,
{
    let dropped = choose|dropped: int|
        0 <= dropped < untrimmed(old).len() && new == commit_step(old, dropped) && (forall|j: int|
            0 <= j < dropped ==> #[trigger] drop_warranted(untrimmed(old).skip(j), retained))
            && may_stop(untrimmed(old).skip(dropped), retained);
    assert(new.undo.last() == untrimmed(old).last());
}

/// The history stays well formed through every operation (a commit or a
/// modification needs a revision left to allocate).
pub proof fn lemma_well_formed_preserved<D, F: Fn(&[Entry<D>]) -> usize>(
    h: HistoryState<D>,
    committed_state: HistoryState<D>,
    retained: F,
    name: String,
    document: D,
)
    requires
        well_formed(h),
        h.next < u64::MAX,
        committed(h, committed_state, retained),
    ensures
        well_formed(begin_step(h, name, document)),
        well_formed(committed_state),
        well_formed(undo_step(h, document).0),
        well_formed(redo_step(h, document).0),
        well_formed(HistoryState { pending: None, ..h }),
        well_formed(HistoryState { saved: h.revision, ..h }),
        well_formed(HistoryState { next: (h.next + 1) as u64, revision: (h.next + 1) as u64, ..h }),
{
    if h.pending is Some {
        let dropped = choose|dropped: int|
            0 <= dropped < untrimmed(h).len() && committed_state == commit_step(h, dropped) && (
            forall|j: int|
                0 <= j < dropped ==> #[trigger] drop_warranted(untrimmed(h).skip(j), retained))
                && may_stop(untrimmed(h).skip(dropped), retained);
        let full = untrimmed(h);
        assert forall|i: int| 0 <= i < committed_state.undo.len() implies #[trigger] committed_state.undo[i].revision
            <= committed_state.next by {
            assert(committed_state.undo[i] == full[i + dropped]);
        }
    }
    let u = undo_step(h, document).0;
    assert forall|i: int| 0 <= i < u.redo.len() implies #[trigger] u.redo[i].revision <= u.next by {
        if i < h.redo.len() {
            assert(u.redo[i] == h.redo[i]);
        }
    }
    let r = redo_step(h, document).0;
    assert forall|i: int| 0 <= i < r.undo.len() implies #[trigger] r.undo[i].revision <= r.next by {
        if i < h.undo.len() {
            assert(r.undo[i] == h.undo[i]);
        }
    }
}

/// Committing an edit in a well-formed history gives a revision that no
/// retained snapshot and no saved state has: the document is dirty, also after
/// the edit diverges from an undone-to saved state.
pub proof fn lemma_commit_is_fresh<D, F: Fn(&[Entry<D>]) -> usize>(
    old: HistoryState<D>,
    new: HistoryState<D>,
    retained: F,
)
    requires
        well_formed(old),
        old.next < u64::MAX,
        old.pending is Some,
        committed(old, new, retained),
    ensures
        is_dirty(new),
        new.revision != old.saved,
        new.revision > old.revision,
        forall|i: int| 0 <= i < old.undo.len() ==> new.revision != #[trigger] old.undo[i].revision,
        forall|i: int| 0 <= i < old.redo.len() ==> new.revision != #[trigger] old.redo[i].revision,
{
}

/// Saving makes a history without an open transaction clean.
pub proof fn lemma_saved_is_clean<D>(h: HistoryState<D>)
    requires
        h.pending is None,
    ensures
        !is_dirty(HistoryState { saved: h.revision, ..h }),
{
}

/// While a transaction is pending, further `begin`s keep the first snapshot.
pub proof fn lemma_begin_keeps_first_snapshot<D>(h: HistoryState<D>, first: String, a: D, second: String, b: D)
    ensures
        begin_step(begin_step(h, first, a), second, b) == begin_step(h, first, a),
        h.pending is None ==> begin_step(h, first, a).pending == Some(Entry { name: first, document: a, revision: h.revision }),
{
}

/// An edit made as one transaction is undone as one step: after `begin` with
/// the document before the edit and a commit, undo gives that document back
/// with the revision it had, and keeps the edited document for redo.
pub proof fn lemma_undo_restores_transaction<D, F: Fn(&[Entry<D>]) -> usize>(
    h: HistoryState<D>,
    name: String,
    before: D,
    after: D,
    committed_state: HistoryState<D>,
    retained: F,
)
    requires
        h.pending is None,
        committed(begin_step(h, name, before), committed_state, retained),
    ensures
        undo_step(committed_state, after).1 == before,
        undo_step(committed_state, after).2,
        undo_step(committed_state, after).0.revision == h.revision,
        undo_step(committed_state, after).0.redo.last() == (Entry {
            name,
            document: after,
            revision: committed_state.revision,
        }),
{
    lemma_commit_shape(begin_step(h, name, before), committed_state, retained);
}

} // verus!
