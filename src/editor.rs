use vstd::prelude::*;

use std::ops::Range;

use crate::config::Config;
use crate::cursor::{shift_for_delete, shift_opt_delete, Cursor, CursorId};
use crate::event::{lemma_append_replays, lemma_redo_replays, lemma_undo_replays, Edit, Event, EventLog};
use crate::state::{changes, moved_for, EditorState, Movement};
use crate::text::{chars_to_string, string_chars};

verus! {

/// Identity of an open document.
#[derive(Clone, Copy, Debug, PartialEq, Eq, Hash, Structural)]
pub struct BufferId(pub usize);

/// Why an editor operation was refused.
#[derive(Debug, Clone, PartialEq, Eq)]
pub enum EditorError {
    /// The last open document cannot be closed.
    LastBuffer,
    /// The document has changes that are not saved.
    UnsavedChanges,
    /// Every document identity has been handed out.
    NoFreeId,
    /// Reading or writing the backing file failed.
    Io(String),
}

/// The text that copying takes from cursors `cs` of `t`: each selection in
/// order of creation, joined by line breaks.
pub open spec fn copied(cs: Seq<(CursorId, Cursor)>, t: Seq<char>) -> Seq<char>
    decreases cs.len(),
{
    if cs.len() == 0 {
        Seq::empty()
    } else {
        let acc = copied(cs.drop_last(), t);
        match cs.last().1.selection_spec() {
            Some((s, e)) => if acc.len() == 0 {
                t.subrange(s as int, e as int)
            } else {
                acc.push('\n') + t.subrange(s as int, e as int)
            },
            None => acc,
        }
    }
}

/// Where cursor `c`'s selection starts; 0 when it has none.
pub open spec fn sel_start(c: Cursor) -> nat {
    match c.selection_spec() {
        Some((s, _)) => s as nat,
        None => 0,
    }
}

/// Among the first `n` cursors of `cs`, the one whose selection starts last;
/// on a tie the earliest of them.
pub open spec fn last_selected(cs: Seq<(CursorId, Cursor)>, n: nat) -> Option<int>
    decreases n,
{
    if n == 0 {
        None
    } else {
        let best = last_selected(cs, (n - 1) as nat);
        if cs[n - 1].1.selection_spec() is Some && (best is None || sel_start(cs[n - 1].1) > sel_start(
            cs[best->0].1,
        )) {
            Some(n - 1)
        } else {
            best
        }
    }
}

/// Cursor `c` after the units `[s, e)` are deleted.
pub open spec fn cut_cursor(c: Cursor, s: int, e: int) -> Cursor {
    Cursor {
        position: shift_for_delete(c.position as int, s, e) as usize,
        anchor: shift_opt_delete(c.anchor, s, e),
    }
}

/// Cursor entry `p` after the units `[s, e)` are deleted.
pub open spec fn cut_entry(p: (CursorId, Cursor), s: int, e: int) -> (CursorId, Cursor) {
    (p.0, cut_cursor(p.1, s, e))
}

/// The cursors, the text and the deletions made, each with the cursor it
/// came from, after `r` rounds of cutting selections from cursors `cs` of
/// text `t`. A round deletes the selection that starts last and moves every
/// cursor to match; once no selection is left, rounds change nothing.
pub open spec fn cut_rounds(cs: Seq<(CursorId, Cursor)>, t: Seq<char>, r: nat) -> (
    Seq<(CursorId, Cursor)>,
    Seq<char>,
    Seq<(CursorId, Edit)>,
)
    decreases r,
{
    if r == 0 {
        (cs, t, Seq::empty())
    } else {
        let prev = cut_rounds(cs, t, (r - 1) as nat);
        let cur = prev.0;
        let text = prev.1;
        match last_selected(cur, cur.len()) {
            Some(k) => match cur[k].1.selection_spec() {
                Some((s, e)) => (
                    cur.map_values(|p: (CursorId, Cursor)| cut_entry(p, s as int, e as int)),
                    text.subrange(0, s as int) + text.subrange(e as int, text.len() as int),
                    prev.2.push(
                        (
                            cur[k].0,
                            Edit::Delete { start: s as nat, end: e as nat, text: text.subrange(s as int, e as int) },
                        ),
                    ),
                ),
                None => prev,
            },
            None => prev,
        }
    }
}

/// `done` is `before` followed by events that make the edits `evs`, each
/// tagged with its cursor.
pub open spec fn appended(done: Seq<Event>, before: Seq<Event>, evs: Seq<(CursorId, Edit)>) -> bool {
    &&& done.len() == before.len() + evs.len()
    &&& done.subrange(0, before.len() as int) == before
    &&& forall|j: int|
        0 <= j < evs.len() ==> (#[trigger] done[before.len() + j])@ == evs[j].1
            && done[before.len() + j].cursor_spec() == evs[j].0
}

/// When no cursor has a selection, no cursor is picked.
proof fn lemma_none_selected(cs: Seq<(CursorId, Cursor)>, n: nat)
    requires
        n <= cs.len(),
        forall|i: int| 0 <= i < n ==> (#[trigger] cs[i]).1.selection_spec() is None,
    ensures
        last_selected(cs, n) is None,
    decreases n,
{
    if n > 0 {
        lemma_none_selected(cs, (n - 1) as nat);
    }
}

/// When no cursor has a selection, cutting changes nothing.
proof fn lemma_cut_idle(cs: Seq<(CursorId, Cursor)>, t: Seq<char>, r: nat)
    requires
        last_selected(cs, cs.len()) is None,
    ensures
        cut_rounds(cs, t, r) == (cs, t, Seq::<(CursorId, Edit)>::empty()),
    decreases r,
{
    if r > 0 {
        lemma_cut_idle(cs, t, (r - 1) as nat);
    }
}

/// Making edit `e` on `t` leaves a text whose length fits in memory.
pub open spec fn fits_after(e: Edit, t: Seq<char>) -> bool {
    e matches Edit::Insert { text, .. } ==> t.len() + text.len() <= usize::MAX
}

/// With one cursor, copying takes its selection, or nothing.
pub proof fn lemma_copied_one(cs: Seq<(CursorId, Cursor)>, t: Seq<char>)
    requires
        cs.len() == 1,
    ensures
        copied(cs, t) == match cs[0].1.selection_spec() {
            Some((s, e)) => t.subrange(s as int, e as int),
            None => Seq::<char>::empty(),
        },
{
    assert(cs.drop_last() =~= Seq::<(CursorId, Cursor)>::empty());
    assert(copied(cs.drop_last(), t) == Seq::<char>::empty());
    assert(cs.last() == cs[0]);
}

/// The document was read from `path`.
pub open spec fn read_from(st: EditorState, path: Seq<char>) -> bool {
    st.path matches Some(p) && p@ == path
}

/// The open documents, each with its edit history, one of them active, and a
/// clipboard shared by all.
pub struct Editor {
    buffers: Vec<(BufferId, EditorState)>,
    event_logs: Vec<EventLog>,
    bases: Ghost<Seq<Seq<char>>>,
    active: usize,
    next_buffer_id: usize,
    config: Config,
    pub clipboard: String,
    should_quit: bool,
    status_message: Option<String>,
}

impl Editor {
    pub closed spec fn docs(&self) -> Seq<(BufferId, EditorState)> {
        self.buffers@
    }

    pub closed spec fn logs(&self) -> Seq<EventLog> {
        self.event_logs@
    }

    /// The text each document had when it was opened.
    pub closed spec fn bases(&self) -> Seq<Seq<char>> {
        self.bases@
    }

    pub closed spec fn active_index(&self) -> int {
        self.active as int
    }

    pub closed spec fn next_id_spec(&self) -> nat {
        self.next_buffer_id as nat
    }

    pub closed spec fn clipboard_spec(&self) -> Seq<char> {
        self.clipboard@
    }

    pub closed spec fn status_spec(&self) -> Option<Seq<char>> {
        match self.status_message {
            Some(s) => Some(s@),
            None => None,
        }
    }

    pub closed spec fn quit_spec(&self) -> bool {
        self.should_quit
    }

    /// Between `prev` and `self` only the active document and its history may
    /// have changed: the other documents, their histories, the texts they were
    /// opened with and which document is active are kept.
    pub open spec fn others_unchanged(&self, prev: &Editor) -> bool {
        &&& self.docs().len() == prev.docs().len()
        &&& self.logs().len() == prev.logs().len()
        &&& self.active_index() == prev.active_index()
        &&& self.bases() == prev.bases()
        &&& self.next_id_spec() == prev.next_id_spec()
        &&& self.docs()[self.active_index()].0 == prev.docs()[prev.active_index()].0
        &&& forall|i: int|
            0 <= i < self.docs().len() && i != self.active_index() ==> #[trigger] self.docs()[i]
                == prev.docs()[i] && self.logs()[i] == prev.logs()[i]
    }

    /// From `prev` to `self`, edit `e` tagged with cursor `id` was made on the
    /// active document and appended to its history: the text is edited, every
    /// cursor is moved to match, nothing is left to redo, and nothing else changed.
    pub open spec fn edit_recorded(&self, prev: &Editor, e: Edit, id: CursorId) -> bool {
        let c0 = prev.active_doc().cursors;
        let c1 = self.active_doc().cursors;
        &&& self.others_unchanged(prev)
        &&& self.active_text() == e.apply(prev.active_text())
        &&& self.active_log().done().len() == prev.active_log().done().len() + 1
        &&& self.active_log().done().drop_last() == prev.active_log().done()
        &&& self.active_log().done().last()@ == e
        &&& self.active_log().done().last().cursor_spec() == id
        &&& self.active_log().undone().len() == 0
        &&& self.active_doc().buffer.modified_spec() == (prev.active_doc().buffer.modified_spec() || changes(e))
        &&& c1.entries_spec().len() == c0.entries_spec().len()
        &&& c1.primary_index() == c0.primary_index()
        &&& forall|i: int|
            0 <= i < c0.entries_spec().len() ==> (#[trigger] c1.entries_spec()[i]).0 == c0.entries_spec()[i].0
                && moved_for(e, c0.entries_spec()[i].1, c1.entries_spec()[i].1)
    }

    /// The histories, the texts the documents were opened with and the
    /// clipboard are as in `prev`.
    pub open spec fn history_kept(&self, prev: &Editor) -> bool {
        &&& self.logs() == prev.logs()
        &&& self.bases() == prev.bases()
        &&& self.clipboard_spec() == prev.clipboard_spec()
        &&& self.next_id_spec() == prev.next_id_spec()
    }

    pub open spec fn active_doc(&self) -> EditorState {
        self.docs()[self.active_index()].1
    }

    pub open spec fn active_log(&self) -> EventLog {
        self.logs()[self.active_index()]
    }

    pub open spec fn active_text(&self) -> Seq<char> {
        self.active_doc().text()
    }

    /// Every document is well formed, and its history replays from the text it
    /// was opened with to its current text.
    pub closed spec fn wf(&self) -> bool {
        &&& self.buffers@.len() > 0
        &&& self.event_logs@.len() == self.buffers@.len()
        &&& self.bases@.len() == self.buffers@.len()
        &&& self.active < self.buffers@.len()
        &&& forall|i: int| 0 <= i < self.buffers@.len() ==> (#[trigger] self.buffers@[i]).1.wf()
        &&& forall|i: int|
            0 <= i < self.buffers@.len() ==> (#[trigger] self.event_logs@[i]).replays(
                self.bases@[i],
                self.buffers@[i].1.text(),
            )
        &&& forall|i: int, j: int|
            0 <= i < j < self.buffers@.len() ==> (#[trigger] self.buffers@[i]).0 != (
            #[trigger] self.buffers@[j]).0
        &&& forall|i: int| 0 <= i < self.buffers@.len() ==> (#[trigger] self.buffers@[i]).0.0 < self.next_buffer_id
    }

    /// What a well-formed editor offers its callers.
    pub proof fn lemma_wf(&self)
        requires
            self.wf(),
        ensures
            0 <= self.active_index() < self.docs().len(),
            self.logs().len() == self.docs().len(),
            self.bases().len() == self.docs().len(),
            forall|i: int| 0 <= i < self.docs().len() ==> (#[trigger] self.docs()[i]).1.wf(),
            forall|i: int|
                0 <= i < self.docs().len() ==> (#[trigger] self.logs()[i]).replays(
                    self.bases()[i],
                    self.docs()[i].1.text(),
                ),
            forall|i: int, j: int|
                0 <= i < j < self.docs().len() ==> (#[trigger] self.docs()[i]).0 != (
                #[trigger] self.docs()[j]).0,
    {
    }

    /// An editor with one empty document, the active one.
    pub fn new(config: Config) -> (r: Result<Editor, EditorError>)
        ensures
            r matches Ok(e) && {
                &&& e.wf()
                &&& e.docs().len() == 1
                &&& e.docs()[0].0 == BufferId(0)
                &&& e.active_index() == 0
                &&& e.active_text() == Seq::<char>::empty()
                &&& e.active_doc().viewport.wrap_spec() == config.editor.line_wrap
                &&& e.clipboard_spec() == Seq::<char>::empty()
                &&& e.status_spec() is None
                &&& !e.quit_spec()
                &&& e.next_id_spec() == 1
                &&& e.active_doc().cursors.entries_spec() == seq![
                    (CursorId(0), Cursor { position: 0, anchor: None }),
                ]
                &&& e.active_doc().cursors.primary_index() == 0
                &&& !e.active_doc().buffer.modified_spec()
                &&& e.active_log().done().len() == 0
                &&& e.active_log().undone().len() == 0
                &&& e.bases() == seq![Seq::<char>::empty()]
            },
    {
        let mut state = EditorState::new(80, 24);
        state.viewport.set_wrap(config.editor.line_wrap);
        let mut buffers = Vec::new();
        buffers.push((BufferId(0), state));
        let mut event_logs = Vec::new();
        event_logs.push(EventLog::new());
        let ghost bases = seq![Seq::<char>::empty()];
        let e = Editor {
            buffers,
            event_logs,
            bases: Ghost(bases),
            active: 0,
            next_buffer_id: 1,
            config,
            clipboard: String::new(),
            should_quit: false,
            status_message: None,
        };
        proof {
            assert(e.event_logs@[0].replays(e.bases@[0], e.buffers@[0].1.text()));
        }
        Ok(e)
    }

    /// The number of open documents.
    pub fn buffer_count(&self) -> (r: usize)
        ensures
            r == self.docs().len(),
    {
        self.buffers.len()
    }

    pub fn active_buffer_id(&self) -> (r: BufferId)
        requires
            self.wf(),
        ensures
            r == self.docs()[self.active_index()].0,
    {
        self.buffers[self.active].0
    }

    /// The `i`-th open document, in order of opening.
    pub fn document(&self, i: usize) -> (r: &(BufferId, EditorState))
        requires
            i < self.docs().len(),
        ensures
            *r == self.docs()[i as int],
    {
        &self.buffers[i]
    }

    /// Where the active document stands among the open ones.
    pub fn active_position(&self) -> (r: usize)
        ensures
            r == self.active_index(),
    {
        self.active
    }

    /// Whether a new document can still get an identity.
    pub fn has_free_id(&self) -> (r: bool)
        ensures
            r == (self.next_id_spec() < usize::MAX),
    {
        self.next_buffer_id < usize::MAX
    }

    fn index_of(&self, id: BufferId) -> (r: Option<usize>)
        requires
            self.wf(),
        ensures
            r matches Some(i) ==> i < self.docs().len() && self.docs()[i as int].0 == id,
            r is None ==> forall|i: int| 0 <= i < self.docs().len() ==> (#[trigger] self.docs()[i]).0 != id,
    {
        let n = self.buffers.len();
        let mut i: usize = 0;
        while i < n
            invariant
                n == self.buffers@.len(),
                i <= n,
                forall|k: int| 0 <= k < i ==> (#[trigger] self.buffers@[k]).0 != id,
            decreases n - i,
        {
            if self.buffers[i].0 == id {
                return Some(i);
            }
            i = i + 1;
        }
        None
    }

    /// The document read from `path`, if one is open.
    pub fn find_buffer(&self, path: &str) -> (r: Option<BufferId>)
        requires
            self.wf(),
        ensures
            r matches Some(id) ==> exists|i: int|
                0 <= i < self.docs().len() && (#[trigger] self.docs()[i]).0 == id && read_from(
                    self.docs()[i].1,
                    path@,
                ),
            r is None ==> forall|i: int|
                0 <= i < self.docs().len() ==> !read_from((#[trigger] self.docs()[i]).1, path@),
    {
        let want = String::from_str(path);
        let n = self.buffers.len();
        let mut i: usize = 0;
        while i < n
            invariant
                n == self.buffers@.len(),
                i <= n,
                want@ == path@,
                forall|k: int| 0 <= k < i ==> !read_from((#[trigger] self.buffers@[k]).1, path@),
            decreases n - i,
        {
            match &self.buffers[i].1.path {
                Some(p) => {
                    if *p == want {
                        proof {
                            assert(read_from(self.docs()[i as int].1, path@));
                            assert(self.docs()[i as int].0 == self.buffers@[i as int].0);
                        }
                        return Some(self.buffers[i].0);
                    }
                },
                None => {},
            }
            i = i + 1;
        }
        None
    }

    /// Adds a document and makes it the active one.
    fn add_document(&mut self, state: EditorState) -> (r: BufferId)
        requires
            old(self).wf(),
            state.wf(),
            old(self).next_id_spec() < usize::MAX,
        ensures
            final(self).wf(),
            r == BufferId(old(self).next_id_spec() as usize),
            final(self).docs() == old(self).docs().push((r, state)),
            final(self).active_index() == old(self).docs().len(),
            final(self).next_id_spec() == old(self).next_id_spec() + 1,
            final(self).active_log().done().len() == 0,
            final(self).active_log().undone().len() == 0,
            final(self).logs() == old(self).logs().push(final(self).active_log()),
            final(self).bases() == old(self).bases().push(state.text()),
            final(self).clipboard_spec() == old(self).clipboard_spec(),
            final(self).status_spec() == old(self).status_spec(),
            final(self).quit_spec() == old(self).quit_spec(),
    {
        let id = BufferId(self.next_buffer_id);
        self.next_buffer_id = self.next_buffer_id + 1;
        let ghost text = state.text();
        self.buffers.push((id, state));
        self.event_logs.push(EventLog::new());
        proof {
            self.bases@ = self.bases@.push(text);
        }
        self.active = self.buffers.len() - 1;
        proof {
            let n = old(self).buffers@.len();
            assert forall|i: int| 0 <= i < self.buffers@.len() implies (#[trigger] self.buffers@[i]).1.wf() by {
                if i < n {
                    assert(self.buffers@[i] == old(self).buffers@[i]);
                }
            }
            assert forall|i: int|
                0 <= i < self.buffers@.len() implies (#[trigger] self.event_logs@[i]).replays(
                self.bases@[i],
                self.buffers@[i].1.text(),
            ) by {
                if i < n {
                    assert(self.buffers@[i] == old(self).buffers@[i]);
                    assert(self.event_logs@[i] == old(self).event_logs@[i]);
                    assert(self.bases@[i] == old(self).bases@[i]);
                }
            }
            assert forall|i: int, j: int|
                0 <= i < j < self.buffers@.len() implies (#[trigger] self.buffers@[i]).0 != (
                #[trigger] self.buffers@[j]).0 by {
                if j < n {
                    assert(self.buffers@[i] == old(self).buffers@[i]);
                    assert(self.buffers@[j] == old(self).buffers@[j]);
                } else {
                    assert(old(self).buffers@[i].0.0 < old(self).next_buffer_id);
                }
            }
            assert forall|i: int| 0 <= i < self.buffers@.len() implies (#[trigger] self.buffers@[i]).0.0
                < self.next_buffer_id by {
                if i < n {
                    assert(self.buffers@[i] == old(self).buffers@[i]);
                }
            }
        }
        id
    }

    /// Makes the document read from `path` active: the one already open, or a
    /// new one holding `content`.
    pub fn open_file(&mut self, path: &str, content: Vec<char>) -> (r: Result<BufferId, EditorError>)
        requires
            old(self).wf(),
        ensures
            final(self).wf(),
            r matches Ok(id) ==> final(self).docs()[final(self).active_index()].0 == id,
            r matches Ok(id) && final(self).docs().len() > old(self).docs().len() ==> {
                &&& final(self).active_text() == content@
                &&& read_from(final(self).active_doc(), path@)
            },
            final(self).clipboard_spec() == old(self).clipboard_spec(),
            (exists|i: int|
                0 <= i < old(self).docs().len() && read_from(#[trigger] old(self).docs()[i].1, path@))
                ==> {
                &&& final(self).docs() == old(self).docs()
                &&& final(self).logs() == old(self).logs()
                &&& final(self).bases() == old(self).bases()
                &&& r matches Ok(id) && exists|i: int|
                    0 <= i < old(self).docs().len() && #[trigger] old(self).docs()[i].0 == id && read_from(
                        old(self).docs()[i].1,
                        path@,
                    ) && final(self).active_index() == i
            },
            (forall|i: int|
                0 <= i < old(self).docs().len() ==> !read_from(#[trigger] old(self).docs()[i].1, path@))
                ==> if old(self).next_id_spec() < usize::MAX {
                let st = final(self).active_doc();
                &&& r == Ok::<BufferId, EditorError>(BufferId(old(self).next_id_spec() as usize))
                &&& final(self).docs() == old(self).docs().push((BufferId(old(self).next_id_spec() as usize), st))
                &&& final(self).active_index() == old(self).docs().len()
                &&& st.text() == content@
                &&& read_from(st, path@)
                &&& !st.buffer.modified_spec()
                &&& final(self).logs() == old(self).logs().push(final(self).active_log())
                &&& final(self).active_log().done().len() == 0
                &&& final(self).active_log().undone().len() == 0
                &&& final(self).bases() == old(self).bases().push(content@)
                &&& final(self).next_id_spec() == old(self).next_id_spec() + 1
            } else {
                &&& r == Err::<BufferId, EditorError>(EditorError::NoFreeId)
                &&& final(self).docs() == old(self).docs()
                &&& final(self).logs() == old(self).logs()
                &&& final(self).bases() == old(self).bases()
            },
    {
        if let Some(id) = self.find_buffer(path) {
            let i = self.index_of(id);
            if let Some(i) = i {
                self.active = i;
            }
            proof {
                assert(self.buffers@[self.active as int].0 == id);
                assert forall|j: int|
                    0 <= j < self.docs().len() && self.docs()[j].0 == id implies j == self.active_index() by {
                    if j != self.active_index() {
                        if j < self.active_index() {
                            assert(self.buffers@[j].0 != self.buffers@[self.active as int].0);
                        } else {
                            assert(self.buffers@[self.active as int].0 != self.buffers@[j].0);
                        }
                    }
                }
            }
            return Ok(id);
        }
        if self.next_buffer_id == usize::MAX {
            return Err(EditorError::NoFreeId);
        }
        let mut state = EditorState::from_text(content, Some(String::from_str(path)), 80, 24);
        let wrap = self.config.editor.line_wrap;
        state.viewport.set_wrap(wrap);
        let id = self.add_document(state);
        let mut msg = String::from_str("Opened ");
        msg.append(path);
        self.status_message = Some(msg);
        Ok(id)
    }

    /// Opens a new empty document and makes it active.
    pub fn new_buffer(&mut self) -> (r: BufferId)
        requires
            old(self).wf(),
            old(self).next_id_spec() < usize::MAX,
        ensures
            final(self).wf(),
            r == BufferId(old(self).next_id_spec() as usize),
            final(self).docs().len() == old(self).docs().len() + 1,
            final(self).docs()[final(self).active_index()].0 == r,
            final(self).active_text() == Seq::<char>::empty(),
            final(self).status_spec() == Some("New buffer"@),
            final(self).docs() == old(self).docs().push((r, final(self).active_doc())),
            final(self).active_index() == old(self).docs().len(),
            !final(self).active_doc().buffer.modified_spec(),
            final(self).logs() == old(self).logs().push(final(self).active_log()),
            final(self).active_log().done().len() == 0,
            final(self).active_log().undone().len() == 0,
            final(self).bases() == old(self).bases().push(Seq::<char>::empty()),
            final(self).clipboard_spec() == old(self).clipboard_spec(),
            final(self).next_id_spec() == old(self).next_id_spec() + 1,
    {
        let mut state = EditorState::new(80, 24);
        let wrap = self.config.editor.line_wrap;
        state.viewport.set_wrap(wrap);
        let id = self.add_document(state);
        self.status_message = Some(String::from_str("New buffer"));
        id
    }

    /// Closes document `id`, unless it is the last one or has unsaved changes;
    /// when it was active, the first remaining document becomes active.
    pub fn close_buffer(&mut self, id: BufferId) -> (r: Result<(), EditorError>)
        requires
            old(self).wf(),
        ensures
            final(self).wf(),
            final(self).clipboard_spec() == old(self).clipboard_spec(),
            r is Err ==> final(self).docs() == old(self).docs() && final(self).history_kept(old(self))
                && final(self).active_index() == old(self).active_index(),
            old(self).docs().len() == 1 ==> r == Err::<(), EditorError>(EditorError::LastBuffer),
            old(self).docs().len() > 1 ==> {
                ||| exists|i: int|
                    0 <= i < old(self).docs().len() && (#[trigger] old(self).docs()[i]).0 == id && {
                        if old(self).docs()[i].1.buffer.modified_spec() {
                            r == Err::<(), EditorError>(EditorError::UnsavedChanges)
                        } else {
                            &&& r is Ok
                            &&& final(self).docs() == old(self).docs().remove(i)
                            &&& final(self).logs() == old(self).logs().remove(i)
                            &&& final(self).bases() == old(self).bases().remove(i)
                            &&& final(self).active_index() == if old(self).active_index() == i {
                                0
                            } else if old(self).active_index() > i {
                                old(self).active_index() - 1
                            } else {
                                old(self).active_index()
                            }
                        }
                    }
                ||| (forall|i: int| 0 <= i < old(self).docs().len() ==> (#[trigger] old(self).docs()[i]).0 != id)
                    && r is Ok && final(self).docs() == old(self).docs() && final(self).history_kept(old(self))
                    && final(self).active_index() == old(self).active_index()
            },
    {
        if self.buffers.len() == 1 {
            return Err(EditorError::LastBuffer);
        }
        let k = match self.index_of(id) {
            Some(k) => k,
            None => return Ok(()),
        };
        if self.buffers[k].1.buffer.is_modified() {
            return Err(EditorError::UnsavedChanges);
        }
        let ghost old_self = *self;
        let _ = self.buffers.remove(k);
        let _ = self.event_logs.remove(k);
        proof {
            self.bases@ = self.bases@.remove(k as int);
        }
        if self.active == k {
            self.active = 0;
        } else if self.active > k {
            self.active = self.active - 1;
        }
        proof {
            assert forall|i: int| 0 <= i < self.buffers@.len() implies (#[trigger] self.buffers@[i]).1.wf() by {
                if i >= k {
                    assert(self.buffers@[i] == old_self.buffers@[i + 1]);
                }
            }
            assert forall|i: int|
                0 <= i < self.buffers@.len() implies (#[trigger] self.event_logs@[i]).replays(
                self.bases@[i],
                self.buffers@[i].1.text(),
            ) by {
                if i >= k {
                    assert(self.buffers@[i] == old_self.buffers@[i + 1]);
                    assert(self.event_logs@[i] == old_self.event_logs@[i + 1]);
                    assert(self.bases@[i] == old_self.bases@[i + 1]);
                }
            }
            assert forall|i: int, j: int|
                0 <= i < j < self.buffers@.len() implies (#[trigger] self.buffers@[i]).0 != (
                #[trigger] self.buffers@[j]).0 by {
                let oi = if i >= k { i + 1 } else { i };
                let oj = if j >= k { j + 1 } else { j };
                assert(self.buffers@[i] == old_self.buffers@[oi]);
                assert(self.buffers@[j] == old_self.buffers@[oj]);
            }
            assert forall|i: int| 0 <= i < self.buffers@.len() implies (#[trigger] self.buffers@[i]).0.0
                < self.next_buffer_id by {
                let oi = if i >= k { i + 1 } else { i };
                assert(self.buffers@[i] == old_self.buffers@[oi]);
            }
        }
        Ok(())
    }

    /// Makes document `id` active, if it is open.
    pub fn switch_buffer(&mut self, id: BufferId)
        requires
            old(self).wf(),
        ensures
            final(self).wf(),
            final(self).docs() == old(self).docs(),
            final(self).history_kept(old(self)),
            (exists|i: int| 0 <= i < old(self).docs().len() && (#[trigger] old(self).docs()[i]).0 == id)
                ==> final(self).docs()[final(self).active_index()].0 == id,
            (forall|i: int| 0 <= i < old(self).docs().len() ==> (#[trigger] old(self).docs()[i]).0 != id)
                ==> final(self).active_index() == old(self).active_index(),
    {
        if let Some(i) = self.index_of(id) {
            self.active = i;
        }
    }

    /// Makes the next document active, after the last the first.
    pub fn next_buffer(&mut self)
        requires
            old(self).wf(),
        ensures
            final(self).wf(),
            final(self).docs() == old(self).docs(),
            final(self).history_kept(old(self)),
            final(self).active_index() == (old(self).active_index() + 1) % (old(self).docs().len() as int),
    {
        let n = self.buffers.len();
        self.active = (self.active + 1) % n;
    }

    /// Makes the previous document active, before the first the last.
    pub fn prev_buffer(&mut self)
        requires
            old(self).wf(),
        ensures
            final(self).wf(),
            final(self).docs() == old(self).docs(),
            final(self).history_kept(old(self)),
            final(self).active_index() == if old(self).active_index() == 0 {
                old(self).docs().len() - 1
            } else {
                old(self).active_index() - 1
            },
    {
        let n = self.buffers.len();
        self.active = if self.active == 0 {
            n - 1
        } else {
            self.active - 1
        };
    }

    pub fn active_state(&self) -> (r: &EditorState)
        requires
            self.wf(),
        ensures
            *r == self.active_doc(),
    {
        &self.buffers[self.active].1
    }

    /// The active document, to change in place; the caller keeps it well formed
    /// and its history in step.
    pub fn active_state_mut(&mut self) -> (r: &mut EditorState)
        requires
            old(self).wf(),
        ensures
            *r == old(self).active_doc(),
            final(self).docs() == old(self).docs().update(
                old(self).active_index(),
                (old(self).docs()[old(self).active_index()].0, *final(r)),
            ),
            final(self).logs() == old(self).logs(),
            final(self).bases() == old(self).bases(),
            final(self).active_index() == old(self).active_index(),
    {
        let i = self.active;
        &mut self.buffers[i].1
    }

    pub fn active_event_log(&self) -> (r: &EventLog)
        requires
            self.wf(),
        ensures
            *r == self.active_log(),
    {
        &self.event_logs[self.active]
    }

    /// The active document's history, to change in place; the caller keeps it
    /// in step with the document.
    pub fn active_event_log_mut(&mut self) -> (r: &mut EventLog)
        requires
            old(self).wf(),
        ensures
            *r == old(self).active_log(),
            final(self).logs() == old(self).logs().update(old(self).active_index(), *final(r)),
            final(self).docs() == old(self).docs(),
            final(self).bases() == old(self).bases(),
            final(self).active_index() == old(self).active_index(),
    {
        let i = self.active;
        &mut self.event_logs[i]
    }

    /// Applies a new edit to the active document and records it in its history.
    fn record(&mut self, e: Event)
        requires
            old(self).wf(),
            e@.applicable(old(self).active_text()),
            e@ matches Edit::Insert { text, .. } ==> old(self).active_text().len() + text.len() <= usize::MAX,
        ensures
            final(self).wf(),
            final(self).active_index() == old(self).active_index(),
            final(self).docs().len() == old(self).docs().len(),
            final(self).active_text() == e@.apply(old(self).active_text()),
            final(self).active_log().done() == old(self).active_log().done().push(e),
            final(self).active_doc().cursors.entries_spec().len() == old(self).active_doc().cursors.entries_spec().len(),
            final(self).active_doc().cursors.primary_index() == old(self).active_doc().cursors.primary_index(),
            forall|i: int|
                0 <= i < old(self).active_doc().cursors.entries_spec().len() ==> moved_for(
                    e@,
                    old(self).active_doc().cursors.entries_spec()[i].1,
                    #[trigger] final(self).active_doc().cursors.entries_spec()[i].1,
                ),
            forall|i: int|
                0 <= i < old(self).docs().len() ==> (#[trigger] final(self).docs()[i]).0 == old(self).docs()[i].0,
            final(self).clipboard_spec() == old(self).clipboard_spec(),
            final(self).status_spec() == old(self).status_spec(),
            final(self).quit_spec() == old(self).quit_spec(),
            final(self).next_id_spec() == old(self).next_id_spec(),
            final(self).others_unchanged(old(self)),
            final(self).active_log().undone().len() == 0,
            final(self).active_doc().buffer.modified_spec() == (old(self).active_doc().buffer.modified_spec()
                || changes(e@)),
            final(self).edit_recorded(old(self), e@, e.cursor_spec()),
            forall|i: int|
                0 <= i < old(self).active_doc().cursors.entries_spec().len() ==> (
                #[trigger] final(self).active_doc().cursors.entries_spec()[i]).0
                    == old(self).active_doc().cursors.entries_spec()[i].0,
    {
        let i = self.active;
        let ghost log0 = self.event_logs@[i as int];
        let ghost t0 = self.buffers@[i as int].1.text();
        let ghost ev = e;
        self.buffers[i].1.apply(&e);
        self.event_logs[i].append(e);
        proof {
            lemma_append_replays(log0, self.event_logs@[i as int], self.bases@[i as int], t0, ev);
            self.lemma_frame(old(self), i as int);
            assert(self.event_logs@[i as int].done().drop_last() =~= log0.done());
            assert(self.event_logs@[i as int].done().last() == ev);
        }
    }

    /// Documents other than `i` are as in `prev`; with document `i` well formed
    /// and in step with its history, the editor is well formed again.
    proof fn lemma_frame(&self, prev: &Editor, i: int)
        requires
            prev.wf(),
            0 <= i < prev.buffers@.len(),
            self.buffers@.len() == prev.buffers@.len(),
            self.event_logs@.len() == prev.event_logs@.len(),
            self.bases@ == prev.bases@,
            self.active == prev.active,
            self.next_buffer_id == prev.next_buffer_id,
            self.buffers@[i].0 == prev.buffers@[i].0,
            self.buffers@[i].1.wf(),
            self.event_logs@[i].replays(self.bases@[i], self.buffers@[i].1.text()),
            forall|k: int| 0 <= k < self.buffers@.len() && k != i ==> self.buffers@[k] == prev.buffers@[k],
            forall|k: int| 0 <= k < self.buffers@.len() && k != i ==> self.event_logs@[k] == prev.event_logs@[k],
        ensures
            self.wf(),
    {
        assert forall|k: int| 0 <= k < self.buffers@.len() implies (#[trigger] self.buffers@[k]).1.wf() by {
            if k != i {
                assert(self.buffers@[k] == prev.buffers@[k]);
            }
        }
        assert forall|k: int|
            0 <= k < self.buffers@.len() implies (#[trigger] self.event_logs@[k]).replays(
            self.bases@[k],
            self.buffers@[k].1.text(),
        ) by {
            if k != i {
                assert(self.buffers@[k] == prev.buffers@[k]);
                assert(self.event_logs@[k] == prev.event_logs@[k]);
            }
        }
        assert forall|a: int, b: int|
            0 <= a < b < self.buffers@.len() implies (#[trigger] self.buffers@[a]).0 != (
            #[trigger] self.buffers@[b]).0 by {
            assert(self.buffers@[a].0 == prev.buffers@[a].0);
            assert(self.buffers@[b].0 == prev.buffers@[b].0);
        }
        assert forall|a: int| 0 <= a < self.buffers@.len() implies (#[trigger] self.buffers@[a]).0.0
            < self.next_buffer_id by {
            assert(self.buffers@[a].0 == prev.buffers@[a].0);
        }
    }

    /// The text of the active document's selections, in order of creation,
    /// joined by line breaks.
    fn selections_text(&self) -> (r: Vec<char>)
        requires
            self.wf(),
        ensures
            r@ == copied(self.active_doc().cursors.entries_spec(), self.active_text()),
    {
        let state = &self.buffers[self.active].1;
        proof {
            assert(self.buffers@[self.active as int].1.wf());
        }
        let n = state.cursors.len();
        let mut text: Vec<char> = Vec::new();
        let mut i: usize = 0;
        while i < n
            invariant
                state.wf(),
                n == state.cursors.entries_spec().len(),
                i <= n,
                text@ == copied(state.cursors.entries_spec().subrange(0, i as int), state.text()),
            decreases n - i,
        {
            let (_, c) = state.cursors.get(i);
            let ghost cs = state.cursors.entries_spec().subrange(0, i + 1);
            proof {
                assert(cs.drop_last() =~= state.cursors.entries_spec().subrange(0, i as int));
                assert(cs.last() == state.cursors.entries_spec()[i as int]);
                assert(state.cursors.entries_spec()[i as int].1.within(state.text().len() as int));
            }
            if let Some(range) = c.selection_range() {
                let part = state.slice(range.start, range.end);
                if text.len() > 0 {
                    text.push('\n');
                }
                let mut part = part;
                text.append(&mut part);
            }
            i = i + 1;
        }
        proof {
            assert(state.cursors.entries_spec().subrange(0, n as int) =~= state.cursors.entries_spec());
        }
        text
    }

    /// Copies the selections of the active document to the clipboard, when
    /// there are any.
    pub fn copy_selection(&mut self)
        requires
            old(self).wf(),
        ensures
            final(self).wf(),
            final(self).docs() == old(self).docs(),
            final(self).logs() == old(self).logs(),
            final(self).bases() == old(self).bases(),
            final(self).next_id_spec() == old(self).next_id_spec(),
            final(self).active_index() == old(self).active_index(),
            ({
                let c = copied(old(self).active_doc().cursors.entries_spec(), old(self).active_text());
                if c.len() > 0 {
                    final(self).clipboard_spec() == c && final(self).status_spec() == Some("Copied"@)
                } else {
                    final(self).clipboard_spec() == old(self).clipboard_spec() && final(self).status_spec()
                        == old(self).status_spec()
                }
            }),
    {
        let text = self.selections_text();
        if text.len() > 0 {
            self.clipboard = chars_to_string(&text);
            self.status_message = Some(String::from_str("Copied"));
        }
    }

    /// Copies the selections of the active document to the clipboard, then
    /// deletes them, the one that starts last first.
    pub fn cut_selection(&mut self)
        requires
            old(self).wf(),
        ensures
            final(self).wf(),
            final(self).active_index() == old(self).active_index(),
            final(self).docs().len() == old(self).docs().len(),
            ({
                let c = copied(old(self).active_doc().cursors.entries_spec(), old(self).active_text());
                c.len() > 0 ==> final(self).clipboard_spec() == c
            }),
            final(self).active_doc().cursors.entries_spec().len() == old(self).active_doc().cursors.entries_spec().len(),
            forall|i: int|
                0 <= i < final(self).active_doc().cursors.entries_spec().len() ==> (
                #[trigger] final(self).active_doc().cursors.entries_spec()[i]).1.selection_spec() is None,
            old(self).active_doc().cursors.entries_spec().len() == 1 ==> match old(self).active_doc().cursors.primary_spec().selection_spec() {
                Some((s, e)) => {
                    &&& final(self).active_text() == old(self).active_text().subrange(0, s as int)
                        + old(self).active_text().subrange(e as int, old(self).active_text().len() as int)
                    &&& final(self).status_spec() == Some("Cut"@)
                    &&& final(self).active_doc().cursors.primary_spec().position == s
                },
                None => final(self).active_text() == old(self).active_text(),
            },
            final(self).others_unchanged(old(self)),
            ({
                let c0 = old(self).active_doc().cursors.entries_spec();
                let st = cut_rounds(c0, old(self).active_text(), c0.len());
                &&& final(self).active_doc().cursors.entries_spec() == st.0
                &&& final(self).active_text() == st.1
                &&& appended(final(self).active_log().done(), old(self).active_log().done(), st.2)
                &&& st.2.len() > 0 ==> final(self).active_log().undone().len() == 0
                &&& st.2.len() == 0 ==> final(self).active_log().undone() == old(self).active_log().undone()
            }),
            (forall|i: int|
                0 <= i < old(self).active_doc().cursors.entries_spec().len() ==> (
                #[trigger] old(self).active_doc().cursors.entries_spec()[i]).1.selection_spec() is None) ==> {
                &&& final(self).active_text() == old(self).active_text()
                &&& final(self).active_doc().cursors.entries_spec() == old(self).active_doc().cursors.entries_spec()
                &&& final(self).active_log().done() == old(self).active_log().done()
                &&& final(self).active_log().undone() == old(self).active_log().undone()
            },
    {
        self.copy_selection();
        let a = self.active;
        proof {
            assert(self.buffers@[a as int].1.wf());
            self.buffers@[a as int].1.cursors.lemma_primary_in_range();
        }
        let n = self.buffers[a].1.cursors.len();
        let ghost single = n == 1;
        let ghost t0 = self.active_text();
        let ghost sel0 = self.active_doc().cursors.primary_spec().selection_spec();
        let ghost c0 = self.active_doc().cursors.entries_spec();
        let ghost d0 = self.active_log().done();
        let ghost u0 = self.active_log().undone();
        proof {
            assert(d0.subrange(0, d0.len() as int) =~= d0);
        }
        let mut cut_any = false;
        let mut round: usize = 0;
        let ghost mut pending: Set<int> = vstd::set_lib::set_int_range(0, n as int);
        proof {
            vstd::set_lib::lemma_int_range(0, n as int);
        }
        while round < n
            invariant
                self.wf(),
                pending.finite(),
                pending.len() + round <= n,
                forall|i: int|
                    0 <= i < n && (#[trigger] self.active_doc().cursors.entries_spec()[i]).1.selection_spec() is Some
                        ==> pending.contains(i),
                self.active == a,
                self.buffers@.len() == old(self).buffers@.len(),
                n == self.active_doc().cursors.entries_spec().len(),
                round <= n,
                self.clipboard_spec() == old(self).clipboard_spec() || copied(
                    old(self).active_doc().cursors.entries_spec(),
                    old(self).active_text(),
                ).len() > 0,
                ({
                    let c = copied(old(self).active_doc().cursors.entries_spec(), old(self).active_text());
                    c.len() > 0 ==> self.clipboard_spec() == c
                }),
                single ==> n == 1 && self.active_doc().cursors.primary_index() == 0,
                single && round == 0 ==> self.active_text() == t0
                    && self.active_doc().cursors.primary_spec().selection_spec() == sel0,
                single && round == 1 ==> match sel0 {
                    Some((s, e)) => self.active_text() == t0.subrange(0, s as int) + t0.subrange(
                        e as int,
                        t0.len() as int,
                    ) && cut_any && self.active_doc().cursors.primary_spec().position == s,
                    None => self.active_text() == t0,
                },
                t0 == old(self).active_text(),
                sel0 == old(self).active_doc().cursors.primary_spec().selection_spec(),
                single == (old(self).active_doc().cursors.entries_spec().len() == 1),
                c0 == old(self).active_doc().cursors.entries_spec(),
                d0 == old(self).active_log().done(),
                u0 == old(self).active_log().undone(),
                self.others_unchanged(old(self)),
                ({
                    let st = cut_rounds(c0, t0, round as nat);
                    &&& self.active_doc().cursors.entries_spec() == st.0
                    &&& self.active_text() == st.1
                    &&& appended(self.active_log().done(), d0, st.2)
                    &&& st.2.len() > 0 ==> self.active_log().undone().len() == 0
                    &&& st.2.len() == 0 ==> self.active_log().undone() == u0
                }),
            decreases n - round,
        {
            let pick = self.last_selection();
            match pick {
                Some((k, range)) => {
                    let ghost before = self.active_doc().cursors.entries_spec();
                    let state = &self.buffers[a].1;
                    let deleted = state.slice(range.start, range.end);
                    let ghost dseq = deleted@;
                    let cursor_id = state.cursors.get(k).0;
                    let ev = Event::Delete {
                        range: Range { start: range.start, end: range.end },
                        deleted_text: chars_to_string(&deleted),
                        cursor_id,
                    };
                    let ghost ev0 = ev;
                    let ghost prev_self = *self;
                    let ghost st = cut_rounds(c0, t0, round as nat);
                    self.record(ev);
                    cut_any = true;
                    proof {
                        let st1 = cut_rounds(c0, t0, (round + 1) as nat);
                        let s0 = range.start as int;
                        let e0 = range.end as int;
                        assert(ev0@ == Edit::Delete { start: s0 as nat, end: e0 as nat, text: st.1.subrange(s0, e0) });
                        assert(self.active_doc().cursors.entries_spec() =~= st1.0) by {
                            assert forall|i: int| 0 <= i < n implies #[trigger] self.active_doc().cursors.entries_spec()[i]
                                == st1.0[i] by {
                                assert(moved_for(ev0@, before[i].1, self.active_doc().cursors.entries_spec()[i].1));
                            }
                        }
                        let dn = self.active_log().done();
                        assert(dn.subrange(0, d0.len() as int) =~= d0) by {
                            assert(dn.drop_last() == prev_self.active_log().done());
                            assert(prev_self.active_log().done().subrange(0, d0.len() as int) == d0);
                        }
                        assert forall|j: int| 0 <= j < st1.2.len() implies (#[trigger] dn[d0.len() + j])@ == st1.2[j].1
                            && dn[d0.len() + j].cursor_spec() == st1.2[j].0 by {
                            if j < st.2.len() {
                                assert(dn[d0.len() + j] == prev_self.active_log().done()[d0.len() + j]);
                            }
                        }
                        assert(pending.contains(k as int));
                        assert forall|i: int|
                            0 <= i < n && (#[trigger] self.active_doc().cursors.entries_spec()[i]).1.selection_spec() is Some
                                implies pending.remove(k as int).contains(i) by {
                            lemma_delete_clears(
                                before[i].1,
                                self.active_doc().cursors.entries_spec()[i].1,
                                range.start,
                                range.end,
                                dseq,
                            );
                        }
                        pending = pending.remove(k as int);
                    }
                },
                None => {
                    proof {
                        pending = Set::empty();
                    }
                },
            }
            round = round + 1;
        }
        proof {
            assert forall|i: int|
                0 <= i < n implies (#[trigger] self.active_doc().cursors.entries_spec()[i]).1.selection_spec() is None by {
                if self.active_doc().cursors.entries_spec()[i].1.selection_spec() is Some {
                    assert(pending.contains(i));
                }
            }
            if forall|i: int| 0 <= i < c0.len() ==> (#[trigger] c0[i]).1.selection_spec() is None {
                lemma_none_selected(c0, c0.len());
                lemma_cut_idle(c0, t0, n as nat);
                assert(self.active_log().done().subrange(0, d0.len() as int) == d0);
                assert(self.active_log().done() =~= d0);
            }
        }
        if cut_any {
            self.status_message = Some(String::from_str("Cut"));
        }
    }

    /// The cursor of the active document whose selection starts last, if any,
    /// with that selection.
    fn last_selection(&self) -> (r: Option<(usize, Range<usize>)>)
        requires
            self.wf(),
        ensures
            r matches Some((k, rg)) ==> last_selected(
                self.active_doc().cursors.entries_spec(),
                self.active_doc().cursors.entries_spec().len(),
            ) == Some(k as int),
            r is None ==> last_selected(
                self.active_doc().cursors.entries_spec(),
                self.active_doc().cursors.entries_spec().len(),
            ) is None,
            r matches Some((k, rg)) ==> {
                &&& k < self.active_doc().cursors.entries_spec().len()
                &&& rg.start < rg.end <= self.active_text().len()
                &&& self.active_doc().cursors.entries_spec()[k as int].1.selection_spec() == Some(
                    (rg.start, rg.end),
                )
            },
            r is None ==> forall|i: int|
                0 <= i < self.active_doc().cursors.entries_spec().len() ==> (
                #[trigger] self.active_doc().cursors.entries_spec()[i]).1.selection_spec() is None,
    {
        let state = &self.buffers[self.active].1;
        proof {
            assert(self.buffers@[self.active as int].1.wf());
        }
        let n = state.cursors.len();
        let mut best: Option<(usize, Range<usize>)> = None;
        let mut i: usize = 0;
        while i < n
            invariant
                state.wf(),
                n == state.cursors.entries_spec().len(),
                i <= n,
                best matches Some((k, rg)) ==> k < i && rg.start < rg.end <= state.text().len()
                    && state.cursors.entries_spec()[k as int].1.selection_spec() == Some(
                    (rg.start, rg.end),
                ),
                best is None ==> forall|k: int|
                    0 <= k < i ==> (#[trigger] state.cursors.entries_spec()[k]).1.selection_spec() is None,
                best matches Some((k, rg)) ==> last_selected(state.cursors.entries_spec(), i as nat) == Some(
                    k as int,
                ),
                best is None ==> last_selected(state.cursors.entries_spec(), i as nat) is None,
            decreases n - i,
        {
            let (_, c) = state.cursors.get(i);
            proof {
                assert(state.cursors.entries_spec()[i as int].1.within(state.text().len() as int));
            }
            if let Some(rg) = c.selection_range() {
                let better = match &best {
                    Some((_, b)) => rg.start > b.start,
                    None => true,
                };
                if better {
                    best = Some((i, rg));
                }
            }
            i = i + 1;
        }
        best
    }

    /// Inserts `chars` at the primary cursor of the active document, when the
    /// result fits in memory.
    fn insert_at_cursor(&mut self, text: String) -> (r: bool)
        requires
            old(self).wf(),
        ensures
            final(self).wf(),
            final(self).active_index() == old(self).active_index(),
            final(self).docs().len() == old(self).docs().len(),
            final(self).clipboard_spec() == old(self).clipboard_spec(),
            final(self).status_spec() == old(self).status_spec(),
            r == (old(self).active_text().len() + text@.len() <= usize::MAX),
            r ==> {
                let p = old(self).active_doc().cursors.primary_spec().position as int;
                let t = old(self).active_text();
                &&& final(self).active_text() == t.subrange(0, p) + text@ + t.subrange(p, t.len() as int)
                &&& final(self).active_doc().cursors.primary_spec().position == p + text@.len()
                &&& final(self).edit_recorded(
                    old(self),
                    Edit::Insert { pos: p as nat, text: text@ },
                    old(self).active_doc().cursors.entries_spec()[old(self).active_doc().cursors.primary_index()].0,
                )
            },
            !r ==> final(self).docs() == old(self).docs() && final(self).history_kept(old(self)),
    {
        let a = self.active;
        proof {
            assert(self.buffers@[a as int].1.wf());
            self.buffers@[a as int].1.cursors.lemma_primary_in_range();
        }
        let n = string_chars(text.as_str()).len();
        let len = self.buffers[a].1.len();
        if n > usize::MAX - len {
            return false;
        }
        let state = &self.buffers[a].1;
        let position = state.primary_cursor().position;
        let cursor_id = state.cursors.primary_id();
        proof {
            assert(state.cursors.entries_spec()[state.cursors.primary_index()].1.within(len as int));
        }
        let ghost c0 = self.active_doc().cursors.entries_spec();
        let ghost pi = self.active_doc().cursors.primary_index();
        let ev = Event::Insert { position, text, cursor_id };
        let ghost ev0 = ev;
        self.record(ev);
        proof {
            assert(c0[pi].1.position == position);
            assert(ev0@ == Edit::Insert { pos: position as nat, text: text@ });
        }
        true
    }

    /// Pastes the clipboard at the primary cursor of the active document.
    pub fn paste(&mut self)
        requires
            old(self).wf(),
        ensures
            final(self).wf(),
            final(self).active_index() == old(self).active_index(),
            final(self).clipboard_spec() == old(self).clipboard_spec(),
            old(self).clipboard_spec().len() == 0 ==> final(self).docs() == old(self).docs()
                && final(self).history_kept(old(self)) && final(self).status_spec() == old(self).status_spec(),
            old(self).clipboard_spec().len() > 0 && old(self).active_text().len() + old(self).clipboard_spec().len()
                <= usize::MAX ==> {
                let p = old(self).active_doc().cursors.primary_spec().position as int;
                let t = old(self).active_text();
                &&& final(self).active_text() == t.subrange(0, p) + old(self).clipboard_spec()
                    + t.subrange(p, t.len() as int)
                &&& final(self).active_doc().cursors.primary_spec().position == p + old(self).clipboard_spec().len()
                &&& final(self).status_spec() == Some("Pasted"@)
                &&& final(self).edit_recorded(
                    old(self),
                    Edit::Insert { pos: p as nat, text: old(self).clipboard_spec() },
                    old(self).active_doc().cursors.entries_spec()[old(self).active_doc().cursors.primary_index()].0,
                )
            },
            old(self).active_text().len() + old(self).clipboard_spec().len() > usize::MAX
                ==> final(self).docs() == old(self).docs() && final(self).history_kept(old(self)),
    {
        let clip = string_chars(self.clipboard.as_str());
        if clip.len() == 0 {
            return;
        }
        let text = self.clipboard.clone();
        if self.insert_at_cursor(text) {
            self.status_message = Some(String::from_str("Pasted"));
        }
    }

    /// Types `s` at the primary cursor of the active document.
    pub fn insert_text(&mut self, s: &str)
        requires
            old(self).wf(),
        ensures
            final(self).wf(),
            final(self).active_index() == old(self).active_index(),
            final(self).clipboard_spec() == old(self).clipboard_spec(),
            old(self).active_text().len() + s@.len() <= usize::MAX ==> {
                let p = old(self).active_doc().cursors.primary_spec().position as int;
                let t = old(self).active_text();
                &&& final(self).active_text() == t.subrange(0, p) + s@ + t.subrange(p, t.len() as int)
                &&& final(self).active_doc().cursors.primary_spec().position == p + s@.len()
                &&& s@.len() > 0 ==> final(self).edit_recorded(
                    old(self),
                    Edit::Insert { pos: p as nat, text: s@ },
                    old(self).active_doc().cursors.entries_spec()[old(self).active_doc().cursors.primary_index()].0,
                )
            },
            s@.len() == 0 || old(self).active_text().len() + s@.len() > usize::MAX
                ==> final(self).docs() == old(self).docs() && final(self).history_kept(old(self)),
    {
        if s.is_empty() {
            proof {
                let p = old(self).active_doc().cursors.primary_spec().position as int;
                let t = old(self).active_text();
                self.lemma_wf();
                assert(self.active_doc().cursors.entries_spec()[self.active_doc().cursors.primary_index()].1.within(t.len() as int)) by {
                    self.active_doc().cursors.lemma_primary_in_range();
                }
                assert(s@.len() == 0);
                assert(t =~= t.subrange(0, p) + s@ + t.subrange(p, t.len() as int));
            }
            return;
        }
        let _ = self.insert_at_cursor(String::from_str(s));
    }

    /// Deletes the character before the primary cursor of the active document.
    pub fn delete_backward(&mut self)
        requires
            old(self).wf(),
        ensures
            final(self).wf(),
            final(self).active_index() == old(self).active_index(),
            final(self).clipboard_spec() == old(self).clipboard_spec(),
            ({
                let p = old(self).active_doc().cursors.primary_spec().position as int;
                let t = old(self).active_text();
                if p > 0 {
                    &&& final(self).active_text() == t.subrange(0, p - 1) + t.subrange(p, t.len() as int)
                    &&& final(self).active_doc().cursors.primary_spec().position == p - 1
                    &&& final(self).edit_recorded(
                        old(self),
                        Edit::Delete { start: (p - 1) as nat, end: p as nat, text: t.subrange(p - 1, p) },
                        old(self).active_doc().cursors.entries_spec()[old(self).active_doc().cursors.primary_index()].0,
                    )
                } else {
                    final(self).docs() == old(self).docs() && final(self).history_kept(old(self))
                }
            }),
    {
        let a = self.active;
        proof {
            assert(self.buffers@[a as int].1.wf());
            self.buffers@[a as int].1.cursors.lemma_primary_in_range();
        }
        let state = &self.buffers[a].1;
        let p = state.primary_cursor().position;
        if p == 0 {
            return;
        }
        proof {
            assert(state.cursors.entries_spec()[state.cursors.primary_index()].1.within(state.text().len() as int));
        }
        let deleted = state.slice(p - 1, p);
        let cursor_id = state.cursors.primary_id();
        let ghost c0 = self.active_doc().cursors.entries_spec();
        let ghost pi = self.active_doc().cursors.primary_index();
        let ev = Event::Delete {
            range: Range { start: p - 1, end: p },
            deleted_text: chars_to_string(&deleted),
            cursor_id,
        };
        let ghost ev0 = ev;
        self.record(ev);
        proof {
            assert(c0[pi].1.position == p);
            assert(ev0@ == Edit::Delete { start: (p - 1) as nat, end: p as nat, text: old(self).active_text().subrange(p - 1, p as int) });
        }
    }

    /// Undoes the last edit of the active document; reports when there is none.
    pub fn undo(&mut self) -> (r: bool)
        requires
            old(self).wf(),
        ensures
            final(self).wf(),
            final(self).active_index() == old(self).active_index(),
            final(self).clipboard_spec() == old(self).clipboard_spec(),
            old(self).active_log().done().len() == 0 ==> !r && final(self).docs() == old(self).docs()
                && final(self).status_spec() == Some("Nothing to undo"@),
            r ==> old(self).active_log().done().len() > 0 && final(self).active_text()
                == old(self).active_log().done().last()@.inverse().apply(old(self).active_text())
                && final(self).active_log().done() == old(self).active_log().done().drop_last()
                && final(self).active_log().undone() == old(self).active_log().undone().push(
                old(self).active_log().done().last(),
            ) && final(self).others_unchanged(old(self)),
            !r ==> final(self).docs() == old(self).docs() && final(self).history_kept(old(self)),
            old(self).active_log().done().len() > 0 && fits_after(
                old(self).active_log().done().last()@.inverse(),
                old(self).active_text(),
            ) ==> r,
    {
        let a = self.active;
        proof {
            self.lemma_wf();
        }
        let ghost log0 = self.event_logs@[a as int];
        let ghost t0 = self.buffers@[a as int].1.text();
        let n = match self.event_logs[a].last_done() {
            Some(e) => e.text_len(),
            None => {
                self.status_message = Some(String::from_str("Nothing to undo"));
                return false;
            },
        };
        let len = self.buffers[a].1.len();
        let is_delete = match self.event_logs[a].last_done() {
            Some(Event::Delete { .. }) => true,
            _ => false,
        };
        if is_delete && n > usize::MAX - len {
            return false;
        }
        let e = match self.event_logs[a].undo() {
            Some(e) => e,
            None => return false,
        };
        proof {
            lemma_undo_replays(log0, self.event_logs@[a as int], self.bases@[a as int], t0);
        }
        let inv = e.inverse();
        self.buffers[a].1.apply(&inv);
        proof {
            self.lemma_frame(old(self), a as int);
        }
        true
    }

    /// Applies again the last undone edit of the active document; reports when
    /// there is none.
    pub fn redo(&mut self) -> (r: bool)
        requires
            old(self).wf(),
        ensures
            final(self).wf(),
            final(self).active_index() == old(self).active_index(),
            final(self).clipboard_spec() == old(self).clipboard_spec(),
            old(self).active_log().undone().len() == 0 ==> !r && final(self).docs() == old(self).docs()
                && final(self).status_spec() == Some("Nothing to redo"@),
            r ==> old(self).active_log().undone().len() > 0 && final(self).active_text()
                == old(self).active_log().undone().last()@.apply(old(self).active_text())
                && final(self).active_log().done() == old(self).active_log().done().push(
                old(self).active_log().undone().last(),
            ) && final(self).active_log().undone() == old(self).active_log().undone().drop_last()
                && final(self).others_unchanged(old(self)),
            !r ==> final(self).docs() == old(self).docs() && final(self).history_kept(old(self)),
            old(self).active_log().undone().len() > 0 && fits_after(
                old(self).active_log().undone().last()@,
                old(self).active_text(),
            ) ==> r,
    {
        let a = self.active;
        proof {
            self.lemma_wf();
        }
        let ghost log0 = self.event_logs@[a as int];
        let ghost t0 = self.buffers@[a as int].1.text();
        let n = match self.event_logs[a].last_undone() {
            Some(e) => e.text_len(),
            None => {
                self.status_message = Some(String::from_str("Nothing to redo"));
                return false;
            },
        };
        let len = self.buffers[a].1.len();
        let is_insert = match self.event_logs[a].last_undone() {
            Some(Event::Insert { .. }) => true,
            _ => false,
        };
        if is_insert && n > usize::MAX - len {
            return false;
        }
        let e = match self.event_logs[a].redo() {
            Some(e) => e,
            None => return false,
        };
        proof {
            lemma_redo_replays(log0, self.event_logs@[a as int], self.bases@[a as int], t0);
        }
        self.buffers[a].1.apply(&e);
        proof {
            self.lemma_frame(old(self), a as int);
        }
        true
    }

    /// Moves the primary cursor of the active document.
    pub fn move_cursor(&mut self, m: Movement)
        requires
            old(self).wf(),
        ensures
            final(self).wf(),
            final(self).active_index() == old(self).active_index(),
            final(self).active_text() == old(self).active_text(),
            final(self).active_doc().cursors.primary_spec().position == crate::state::movement_target(
                old(self).active_text(),
                old(self).active_doc().cursors.primary_spec().position as nat,
                m,
            ),
            final(self).others_unchanged(old(self)),
            final(self).history_kept(old(self)),
            final(self).active_doc().buffer == old(self).active_doc().buffer,
    {
        let a = self.active;
        proof {
            self.lemma_wf();
        }
        self.buffers[a].1.move_cursor(m);
        proof {
            self.lemma_frame(old(self), a as int);
        }
    }

    /// Selects `[anchor, position)` (or the reverse) with the primary cursor of
    /// the active document, when both lie inside it.
    pub fn select(&mut self, anchor: usize, position: usize) -> (r: bool)
        requires
            old(self).wf(),
        ensures
            final(self).wf(),
            final(self).active_index() == old(self).active_index(),
            final(self).active_text() == old(self).active_text(),
            r == (anchor <= old(self).active_text().len() && position <= old(self).active_text().len()),
            r ==> final(self).active_doc().cursors.entries_spec() == old(self).active_doc().cursors.entries_spec().update(
                old(self).active_doc().cursors.primary_index(),
                (
                    old(self).active_doc().cursors.entries_spec()[old(self).active_doc().cursors.primary_index()].0,
                    Cursor { position, anchor: Some(anchor) },
                ),
            ),
            final(self).active_doc().cursors.primary_index() == old(self).active_doc().cursors.primary_index(),
            r ==> final(self).active_doc().cursors.primary_spec().position == position
                && final(self).active_doc().cursors.primary_spec().anchor == Some(anchor)
                && final(self).active_doc().cursors.entries_spec().len() == old(self).active_doc().cursors.entries_spec().len(),
            final(self).others_unchanged(old(self)),
            final(self).history_kept(old(self)),
            final(self).active_doc().buffer == old(self).active_doc().buffer,
            !r ==> final(self).docs() == old(self).docs(),
    {
        let a = self.active;
        proof {
            self.lemma_wf();
        }
        let len = self.buffers[a].1.len();
        if anchor > len || position > len {
            return false;
        }
        self.buffers[a].1.select(anchor, position);
        proof {
            self.lemma_frame(old(self), a as int);
        }
        true
    }

    /// The whole text of the active document.
    pub fn active_text_string(&self) -> (r: String)
        requires
            self.wf(),
        ensures
            r@ == self.active_text(),
    {
        proof {
            self.lemma_wf();
        }
        self.buffers[self.active].1.buffer.to_string()
    }

    /// Records how writing the active document to its file went: on success
    /// the document counts as saved; on failure nothing changes but the status.
    pub fn save(&mut self, written: Result<(), String>) -> (r: Result<(), EditorError>)
        requires
            old(self).wf(),
        ensures
            final(self).wf(),
            final(self).active_index() == old(self).active_index(),
            final(self).active_text() == old(self).active_text(),
            final(self).others_unchanged(old(self)),
            final(self).history_kept(old(self)),
            final(self).active_doc().cursors == old(self).active_doc().cursors,
            written is Ok ==> r is Ok && !final(self).active_doc().buffer.modified_spec()
                && final(self).status_spec() == Some("Saved"@),
            written matches Err(msg) ==> r == Err::<(), EditorError>(EditorError::Io(msg))
                && final(self).docs() == old(self).docs() && final(self).status_spec() == Some(msg@),
    {
        match written {
            Ok(()) => {
                let a = self.active;
                proof {
                    self.lemma_wf();
                }
                self.buffers[a].1.buffer.mark_saved();
                proof {
                    self.lemma_frame(old(self), a as int);
                }
                self.status_message = Some(String::from_str("Saved"));
                Ok(())
            },
            Err(msg) => {
                self.status_message = Some(msg.clone());
                Err(EditorError::Io(msg))
            },
        }
    }

    /// Replaces the clipboard.
    pub fn set_clipboard(&mut self, text: &str)
        requires
            old(self).wf(),
        ensures
            final(self).wf(),
            final(self).clipboard_spec() == text@,
            final(self).docs() == old(self).docs(),
            final(self).logs() == old(self).logs(),
            final(self).bases() == old(self).bases(),
            final(self).active_index() == old(self).active_index(),
            final(self).status_spec() == old(self).status_spec(),
    {
        self.clipboard = String::from_str(text);
    }

    pub fn should_quit(&self) -> (r: bool)
        ensures
            r == self.quit_spec(),
    {
        self.should_quit
    }

    pub fn quit(&mut self)
        requires
            old(self).wf(),
        ensures
            final(self).wf(),
            final(self).quit_spec(),
            final(self).docs() == old(self).docs(),
    {
        self.should_quit = true;
    }

    /// The status line's message.
    pub fn status_message(&self) -> (r: Option<String>)
        ensures
            r matches Some(s) ==> self.status_spec() == Some(s@),
            r is None ==> self.status_spec() is None,
    {
        match &self.status_message {
            Some(s) => Some(s.clone()),
            None => None,
        }
    }

    /// Resizes the view of every document.
    pub fn resize(&mut self, width: u16, height: u16)
        requires
            old(self).wf(),
        ensures
            final(self).wf(),
            final(self).docs().len() == old(self).docs().len(),
            final(self).active_index() == old(self).active_index(),
            forall|i: int|
                0 <= i < final(self).docs().len() ==> (#[trigger] final(self).docs()[i]).1.viewport.width_spec() == width
                    && final(self).docs()[i].1.viewport.height_spec() == height
                    && final(self).docs()[i].1.buffer == old(self).docs()[i].1.buffer
                    && final(self).docs()[i].1.cursors == old(self).docs()[i].1.cursors
                    && final(self).docs()[i].0 == old(self).docs()[i].0,
            final(self).history_kept(old(self)),
    {
        let n = self.buffers.len();
        let mut i: usize = 0;
        while i < n
            invariant
                self.wf(),
                n == self.buffers@.len() == old(self).buffers@.len(),
                self.active == old(self).active,
                i <= n,
                forall|k: int| 0 <= k < n ==> (#[trigger] self.buffers@[k]).1.buffer == old(self).buffers@[k].1.buffer
                    && self.buffers@[k].1.cursors == old(self).buffers@[k].1.cursors
                    && self.buffers@[k].0 == old(self).buffers@[k].0,
                self.event_logs@ == old(self).event_logs@,
                self.bases@ == old(self).bases@,
                self.clipboard == old(self).clipboard,
                self.next_buffer_id == old(self).next_buffer_id,
                forall|k: int|
                    0 <= k < i ==> (#[trigger] self.buffers@[k]).1.viewport.width_spec() == width
                        && self.buffers@[k].1.viewport.height_spec() == height,
            decreases n - i,
        {
            proof {
                assert(self.buffers@[i as int].1.wf());
            }
            let ghost prev = *self;
            self.buffers[i].1.resize(width, height);
            proof {
                self.lemma_frame(&prev, i as int);
            }
            i = i + 1;
        }
    }
}

/// Deleting a cursor's selection leaves it without one, and a cursor
/// without a selection keeps having none.
proof fn lemma_delete_clears(c0: Cursor, c1: Cursor, s: usize, e: usize, text: Seq<char>)
    requires
        s < e,
        moved_for(Edit::Delete { start: s as nat, end: e as nat, text }, c0, c1),
    ensures
        c0.selection_spec() is None ==> c1.selection_spec() is None,
        c0.selection_spec() == Some((s, e)) ==> c1.selection_spec() is None,
{
}

} // verus!
