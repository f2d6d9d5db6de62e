use vstd::prelude::*;

use std::ops::Range;

use crate::cursor::CursorId;
use crate::text::string_chars;

verus! {

/// One atomic edit, with all it takes to undo it.
pub enum Event {
    Insert { position: usize, text: String, cursor_id: CursorId },
    Delete { range: Range<usize>, deleted_text: String, cursor_id: CursorId },
}

/// What an event does to a document's text.
pub enum Edit {
    Insert { pos: nat, text: Seq<char> },
    Delete { start: nat, end: nat, text: Seq<char> },
}

impl View for Event {
    type V = Edit;

    open spec fn view(&self) -> Edit {
        match self {
            Event::Insert { position, text, .. } => Edit::Insert { pos: *position as nat, text: text@ },
            Event::Delete { range, deleted_text, .. } => Edit::Delete {
                start: range.start as nat,
                end: range.end as nat,
                text: deleted_text@,
            },
        }
    }
}

impl Edit {
    /// The edit can be made on `t`: an insertion lands inside it, a deletion
    /// removes exactly the text it records.
    pub open spec fn applicable(self, t: Seq<char>) -> bool {
        match self {
            Edit::Insert { pos, .. } => pos <= t.len(),
            Edit::Delete { start, end, text } => start <= end <= t.len() && t.subrange(
                start as int,
                end as int,
            ) == text,
        }
    }

    /// The text after the edit.
    pub open spec fn apply(self, t: Seq<char>) -> Seq<char> {
        match self {
            Edit::Insert { pos, text } => t.subrange(0, pos as int) + text + t.subrange(
                pos as int,
                t.len() as int,
            ),
            Edit::Delete { start, end, .. } => t.subrange(0, start as int) + t.subrange(
                end as int,
                t.len() as int,
            ),
        }
    }

    /// The edit that undoes this one.
    pub open spec fn inverse(self) -> Edit {
        match self {
            Edit::Insert { pos, text } => Edit::Delete { start: pos, end: pos + text.len(), text },
            Edit::Delete { start, text, .. } => Edit::Insert { pos: start, text },
        }
    }
}

/// The number of lines of a text: one more than its line breaks.
pub open spec fn line_count(t: Seq<char>) -> nat {
    t.filter(|c: char| c == '\n').len() + 1
}

/// Making an applicable edit and then its inverse gives back the text, and
/// with it the same number of lines.
pub proof fn lemma_inverse_restores(e: Edit, t: Seq<char>)
    requires
        e.applicable(t),
    ensures
        e.inverse().applicable(e.apply(t)),
        e.inverse().apply(e.apply(t)) == t,
        line_count(e.inverse().apply(e.apply(t))) == line_count(t),
{
    match e {
        Edit::Insert { pos, text } => {
            let u = e.apply(t);
            assert(u.subrange(pos as int, (pos + text.len()) as int) =~= text);
            assert(e.inverse().apply(u) =~= t);
        },
        Edit::Delete { start, end, text } => {
            let u = e.apply(t);
            assert(e.inverse().apply(u) =~= t);
        },
    }
}

impl Event {
    pub open spec fn cursor_spec(&self) -> CursorId {
        match self {
            Event::Insert { cursor_id, .. } => *cursor_id,
            Event::Delete { cursor_id, .. } => *cursor_id,
        }
    }

    /// The number of characters the event inserts or removes.
    pub fn text_len(&self) -> (r: usize)
        ensures
            r == (match self@ {
                Edit::Insert { text, .. } => text.len(),
                Edit::Delete { text, .. } => text.len(),
            }),
    {
        match self {
            Event::Insert { text, .. } => string_chars(text.as_str()).len(),
            Event::Delete { deleted_text, .. } => string_chars(deleted_text.as_str()).len(),
        }
    }

    /// An equal event.
    pub fn duplicate(&self) -> (r: Event)
        ensures
            r == *self,
    {
        match self {
            Event::Insert { position, text, cursor_id } => Event::Insert {
                position: *position,
                text: text.clone(),
                cursor_id: *cursor_id,
            },
            Event::Delete { range, deleted_text, cursor_id } => Event::Delete {
                range: Range { start: range.start, end: range.end },
                deleted_text: deleted_text.clone(),
                cursor_id: *cursor_id,
            },
        }
    }

    /// The event that undoes this one, from the same cursor.
    pub fn inverse(&self) -> (r: Event)
        requires
            self matches Event::Insert { position, text, .. } ==> position + text@.len() <= usize::MAX,
        ensures
            r@ == self@.inverse(),
            r.cursor_spec() == self.cursor_spec(),
    {
        match self {
            Event::Insert { position, text, cursor_id } => {
                let n = string_chars(text.as_str()).len();
                Event::Delete {
                    range: Range { start: *position, end: *position + n },
                    deleted_text: text.clone(),
                    cursor_id: *cursor_id,
                }
            },
            Event::Delete { range, deleted_text, cursor_id } => Event::Insert {
                position: range.start,
                text: deleted_text.clone(),
                cursor_id: *cursor_id,
            },
        }
    }
}

/// The text reached by making `edits` in order, starting from `base`.
pub open spec fn replay(base: Seq<char>, edits: Seq<Edit>) -> Seq<char>
    decreases edits.len(),
{
    if edits.len() == 0 {
        base
    } else {
        edits.last().apply(replay(base, edits.drop_last()))
    }
}

/// Each of `edits`, made in order from `base`, can be made where it comes.
pub open spec fn replayable(base: Seq<char>, edits: Seq<Edit>) -> bool
    decreases edits.len(),
{
    if edits.len() == 0 {
        true
    } else {
        replayable(base, edits.drop_last()) && edits.last().applicable(
            replay(base, edits.drop_last()),
        )
    }
}

pub open spec fn views(events: Seq<Event>) -> Seq<Edit> {
    events.map_values(|e: Event| e@)
}

/// The applied events followed by the undone ones, latest undo last: the
/// history that redo walks forward again.
pub open spec fn timeline(done: Seq<Event>, undone: Seq<Event>) -> Seq<Edit> {
    views(done) + views(undone.reverse())
}

/// The history of edits of one document: what was applied, and a stack of
/// what was undone since the last new edit.
pub struct EventLog {
    events: Vec<Event>,
    redo_stack: Vec<Event>,
}

impl EventLog {
    pub closed spec fn done(&self) -> Seq<Event> {
        self.events@
    }

    pub closed spec fn undone(&self) -> Seq<Event> {
        self.redo_stack@
    }

    /// The log replays from `base`: its history can be made in order, and the
    /// applied part of it leads to `current`.
    pub open spec fn replays(&self, base: Seq<char>, current: Seq<char>) -> bool {
        &&& replayable(base, timeline(self.done(), self.undone()))
        &&& replay(base, views(self.done())) == current
    }

    pub fn new() -> (r: EventLog)
        ensures
            r.done() == Seq::<Event>::empty(),
            r.undone() == Seq::<Event>::empty(),
    {
        EventLog { events: Vec::new(), redo_stack: Vec::new() }
    }

    /// The number of applied events.
    pub fn len(&self) -> (r: usize)
        ensures
            r == self.done().len(),
    {
        self.events.len()
    }

    pub fn can_undo(&self) -> (r: bool)
        ensures
            r == (self.done().len() > 0),
    {
        self.events.len() > 0
    }

    pub fn can_redo(&self) -> (r: bool)
        ensures
            r == (self.undone().len() > 0),
    {
        self.redo_stack.len() > 0
    }

    /// The last applied event.
    pub fn last_done(&self) -> (r: Option<&Event>)
        ensures
            self.done().len() == 0 ==> r is None,
            self.done().len() > 0 ==> r == Some(&self.done().last()),
    {
        let n = self.events.len();
        if n == 0 {
            None
        } else {
            Some(&self.events[n - 1])
        }
    }

    /// The last undone event.
    pub fn last_undone(&self) -> (r: Option<&Event>)
        ensures
            self.undone().len() == 0 ==> r is None,
            self.undone().len() > 0 ==> r == Some(&self.undone().last()),
    {
        let n = self.redo_stack.len();
        if n == 0 {
            None
        } else {
            Some(&self.redo_stack[n - 1])
        }
    }

    /// Records a newly applied event; the undone events can no longer be redone.
    pub fn append(&mut self, event: Event)
        ensures
            final(self).done() == old(self).done().push(event),
            final(self).undone() == Seq::<Event>::empty(),
    {
        self.events.push(event);
        self.redo_stack.clear();
    }

    /// Takes back the last applied event and returns it; the caller applies
    /// its inverse.
    pub fn undo(&mut self) -> (r: Option<Event>)
        ensures
            old(self).done().len() == 0 ==> r is None && final(self).done() == old(self).done() && final(self).undone() == old(self).undone(),
            old(self).done().len() > 0 ==> {
                &&& r == Some(old(self).done().last())
                &&& final(self).done() == old(self).done().drop_last()
                &&& final(self).undone() == old(self).undone().push(old(self).done().last())
            },
    {
        match self.events.pop() {
            Some(e) => {
                self.redo_stack.push(e.duplicate());
                Some(e)
            },
            None => None,
        }
    }

    /// Takes the last undone event and returns it; the caller applies it again.
    pub fn redo(&mut self) -> (r: Option<Event>)
        ensures
            old(self).undone().len() == 0 ==> r is None && final(self).done() == old(self).done() && final(self).undone() == old(self).undone(),
            old(self).undone().len() > 0 ==> {
                &&& r == Some(old(self).undone().last())
                &&& final(self).undone() == old(self).undone().drop_last()
                &&& final(self).done() == old(self).done().push(old(self).undone().last())
            },
    {
        match self.redo_stack.pop() {
            Some(e) => {
                self.events.push(e.duplicate());
                Some(e)
            },
            None => None,
        }
    }
}

proof fn lemma_views_push(s: Seq<Event>, e: Event)
    ensures
        views(s.push(e)) == views(s).push(e@),
{
    assert(views(s.push(e)) =~= views(s).push(e@));
}

proof fn lemma_views_drop_last(s: Seq<Event>)
    requires
        s.len() > 0,
    ensures
        views(s.drop_last()) == views(s).drop_last(),
        views(s).last() == s.last()@,
{
    assert(views(s.drop_last()) =~= views(s).drop_last());
}

/// A prefix of a replayable history is replayable.
proof fn lemma_replayable_prefix(base: Seq<char>, edits: Seq<Edit>, n: int)
    requires
        replayable(base, edits),
        0 <= n <= edits.len(),
    ensures
        replayable(base, edits.subrange(0, n)),
    decreases edits.len(),
{
    if n < edits.len() {
        assert(edits.drop_last().subrange(0, n) =~= edits.subrange(0, n));
        lemma_replayable_prefix(base, edits.drop_last(), n);
    } else {
        assert(edits.subrange(0, n) =~= edits);
    }
}

/// Appending an event that is applicable to the current text keeps the log
/// replaying from its base, now to the new text.
pub proof fn lemma_append_replays(log0: EventLog, log1: EventLog, base: Seq<char>, current: Seq<char>, e: Event)
    requires
        log0.replays(base, current),
        e@.applicable(current),
        log1.done() == log0.done().push(e),
        log1.undone() == Seq::<Event>::empty(),
    ensures
        log1.replays(base, e@.apply(current)),
{
    lemma_views_push(log0.done(), e);
    let d = views(log0.done());
    lemma_replayable_prefix(base, timeline(log0.done(), log0.undone()), d.len() as int);
    assert(timeline(log0.done(), log0.undone()).subrange(0, d.len() as int) =~= d);
    assert(views(Seq::<Event>::empty().reverse()) =~= Seq::<Edit>::empty());
    assert(timeline(log1.done(), log1.undone()) =~= d.push(e@));
    assert(d.push(e@).drop_last() =~= d);
}

/// Undoing the last applied event by applying its inverse keeps the log
/// replaying from its base: replaying what is left gives the text after the
/// inverse.
pub proof fn lemma_undo_replays(log0: EventLog, log1: EventLog, base: Seq<char>, current: Seq<char>)
    requires
        log0.replays(base, current),
        log0.done().len() > 0,
        log1.done() == log0.done().drop_last(),
        log1.undone() == log0.undone().push(log0.done().last()),
    ensures
        log0.done().last()@.inverse().applicable(current),
        log1.replays(base, log0.done().last()@.inverse().apply(current)),
{
    let d = views(log0.done());
    let e = log0.done().last();
    lemma_views_drop_last(log0.done());
    lemma_replayable_prefix(base, timeline(log0.done(), log0.undone()), d.len() as int);
    assert(timeline(log0.done(), log0.undone()).subrange(0, d.len() as int) =~= d);
    assert(d.drop_last().push(e@) =~= d);
    let prev = replay(base, d.drop_last());
    lemma_inverse_restores(e@, prev);
    assert(log1.undone().reverse() =~= seq![e] + log0.undone().reverse());
    assert(timeline(log1.done(), log1.undone()) =~= timeline(log0.done(), log0.undone()));
}

/// Redoing the last undone event by applying it again keeps the log
/// replaying from its base, now to the text after that event.
pub proof fn lemma_redo_replays(log0: EventLog, log1: EventLog, base: Seq<char>, current: Seq<char>)
    requires
        log0.replays(base, current),
        log0.undone().len() > 0,
        log1.undone() == log0.undone().drop_last(),
        log1.done() == log0.done().push(log0.undone().last()),
    ensures
        log0.undone().last()@.applicable(current),
        log1.replays(base, log0.undone().last()@.apply(current)),
{
    let e = log0.undone().last();
    lemma_views_push(log0.done(), e);
    let d = views(log0.done());
    let tl = timeline(log0.done(), log0.undone());
    assert(log0.undone().reverse() =~= seq![e] + log0.undone().drop_last().reverse());
    assert(timeline(log1.done(), log1.undone()) =~= tl);
    lemma_replayable_prefix(base, tl, (d.len() + 1) as int);
    assert(tl.subrange(0, (d.len() + 1) as int) =~= d.push(e@));
    assert(d.push(e@).drop_last() =~= d);
}

} // verus!
