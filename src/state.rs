use vstd::prelude::*;

use crate::buffer::{lemma_cells_known, lemma_known_chars, known, TextBuffer};
use crate::cursor::{
    shift_for_delete, shift_for_insert, shift_opt_delete, shift_opt_insert, Cursor, CursorId, CursorSet,
};
use crate::event::{Edit, Event};
use crate::lines::{
    find_line_end, find_line_start, lemma_line_end_bounds, lemma_line_indep, lemma_line_start_bounds,
    lemma_start_of_line, line_end, line_start, place, place_at,
};
use crate::search::{is_white_space, white_space};
use crate::text::string_chars;
use crate::viewport::Viewport;

verus! {

/// The logical line of position `p`.
pub open spec fn line_of(t: Seq<char>, p: nat) -> nat {
    place(t, 0, p).0
}

/// The column of position `p` within its logical line.
pub open spec fn column_of(t: Seq<char>, p: nat) -> int {
    p - line_start(t, line_of(t, p))
}

pub open spec fn min(a: int, b: int) -> int {
    if a <= b {
        a
    } else {
        b
    }
}

/// Where moving up a line from `p` lands: the same column of the line above,
/// or its end when it is shorter; on the first line, `p` itself.
pub open spec fn up_target(t: Seq<char>, p: nat) -> int {
    if line_of(t, p) == 0 {
        p as int
    } else {
        let s = line_start(t, (line_of(t, p) - 1) as nat);
        s + min(column_of(t, p), line_end(t, s) - s)
    }
}

/// Where moving down a line from `p` lands: the same column of the line
/// below, or its end when it is shorter; on the last line, `p` itself.
pub open spec fn down_target(t: Seq<char>, p: nat) -> int {
    if line_end(t, p) >= t.len() {
        p as int
    } else {
        let s = line_end(t, p) + 1;
        s + min(column_of(t, p), line_end(t, s) - s)
    }
}

/// How an edit moves a cursor.
pub open spec fn moved_for(e: Edit, c0: Cursor, c1: Cursor) -> bool {
    match e {
        Edit::Insert { pos, text } => {
            &&& c1.position == shift_for_insert(c0.position as int, pos as int, text.len() as int)
            &&& c1.anchor == shift_opt_insert(c0.anchor, pos as int, text.len() as int)
        },
        Edit::Delete { start, end, .. } => {
            &&& c1.position == shift_for_delete(c0.position as int, start as int, end as int)
            &&& c1.anchor == shift_opt_delete(c0.anchor, start as int, end as int)
        },
    }
}

/// The edit changes the text.
pub open spec fn changes(e: Edit) -> bool {
    match e {
        Edit::Insert { text, .. } => text.len() > 0,
        Edit::Delete { start, end, .. } => start < end,
    }
}

/// The first index at or after `q` whose character is white space exactly
/// when `ws` is false, or the end of the text.
pub open spec fn skip_forward(t: Seq<char>, q: nat, ws: bool) -> nat
    decreases t.len() - q,
{
    if q >= t.len() {
        t.len()
    } else if white_space(t[q as int]) == ws {
        skip_forward(t, q + 1, ws)
    } else {
        q
    }
}

/// The last index at or before `q` whose preceding character is white space
/// exactly when `ws` is false, or the start of the text.
pub open spec fn skip_backward(t: Seq<char>, q: nat, ws: bool) -> nat
    decreases q,
{
    if q == 0 || q > t.len() {
        0
    } else if white_space(t[q - 1]) == ws {
        skip_backward(t, (q - 1) as nat, ws)
    } else {
        q
    }
}

/// The ways a cursor moves by content.
#[derive(Clone, Copy, Debug, PartialEq, Eq, Structural)]
pub enum Movement {
    Left,
    Right,
    Up,
    Down,
    LineStart,
    LineEnd,
    /// To the end of the next word.
    WordRight,
    /// To the start of the previous word.
    WordLeft,
}

/// Where a movement from `p` lands.
pub open spec fn movement_target(t: Seq<char>, p: nat, m: Movement) -> int {
    match m {
        Movement::Left => if p > 0 {
            p - 1
        } else {
            0int
        },
        Movement::Right => if p < t.len() {
            (p + 1) as int
        } else {
            p as int
        },
        Movement::Up => up_target(t, p),
        Movement::Down => down_target(t, p),
        Movement::LineStart => line_start(t, line_of(t, p)) as int,
        Movement::LineEnd => line_end(t, p) as int,
        Movement::WordRight => skip_forward(t, skip_forward(t, p, true), false) as int,
        Movement::WordLeft => skip_backward(t, skip_backward(t, p, true), false) as int,
    }
}

fn skip_forward_at(t: &Vec<char>, q: usize, ws: bool) -> (r: usize)
    requires
        q <= t@.len(),
    ensures
        r == skip_forward(t@, q as nat, ws),
        q <= r <= t@.len(),
{
    let mut i = q;
    while i < t.len() && is_white_space(t[i]) == ws
        invariant
            q <= i <= t@.len(),
            skip_forward(t@, i as nat, ws) == skip_forward(t@, q as nat, ws),
        decreases t@.len() - i,
    {
        i = i + 1;
    }
    i
}

fn skip_backward_at(t: &Vec<char>, q: usize, ws: bool) -> (r: usize)
    requires
        q <= t@.len(),
    ensures
        r == skip_backward(t@, q as nat, ws),
        r <= q,
{
    let mut i = q;
    while i > 0 && is_white_space(t[i - 1]) == ws
        invariant
            i <= q <= t@.len(),
            skip_backward(t@, i as nat, ws) == skip_backward(t@, q as nat, ws),
        decreases i,
    {
        i = i - 1;
    }
    i
}

/// One open document: its content, its cursors and its view.
pub struct EditorState {
    pub buffer: TextBuffer,
    pub cursors: CursorSet,
    pub viewport: Viewport,
    pub path: Option<String>,
}

impl EditorState {
    /// The content is in memory, and every cursor lies inside it.
    pub open spec fn wf(&self) -> bool {
        &&& self.buffer.wf()
        &&& self.buffer.loaded_spec()
        &&& self.cursors.wf()
        &&& self.cursors.within(self.buffer.cells().len() as int)
        &&& self.viewport.wf()
    }

    pub open spec fn text(&self) -> Seq<char> {
        self.buffer.text()
    }

    /// An empty document in a view of the given size.
    pub fn new(width: u16, height: u16) -> (r: EditorState)
        ensures
            r.wf(),
            r.text() == Seq::<char>::empty(),
            !r.buffer.modified_spec(),
            r.cursors.entries_spec() == seq![(CursorId(0), Cursor { position: 0, anchor: None })],
            r.cursors.primary_index() == 0,
            r.cursors.primary_spec().position == 0,
            r.viewport.width_spec() == width,
            r.viewport.height_spec() == height,
            r.path is None,
    {
        EditorState::from_text(Vec::new(), None, width, height)
    }

    /// A document holding `text`, read from `path`, in a view of the given size.
    pub fn from_text(text: Vec<char>, path: Option<String>, width: u16, height: u16) -> (r: EditorState)
        ensures
            r.wf(),
            r.text() == text@,
            !r.buffer.modified_spec(),
            r.cursors.entries_spec() == seq![(CursorId(0), Cursor { position: 0, anchor: None })],
            r.cursors.primary_index() == 0,
            r.cursors.primary_spec().position == 0,
            r.viewport.width_spec() == width,
            r.viewport.height_spec() == height,
            r.path == path,
    {
        let buffer = TextBuffer::from_chars(text);
        let cursors = CursorSet::new();
        proof {
            lemma_known_chars(text@);
            assert(cursors.entries_spec()[0].1.within(buffer.cells().len() as int));
        }
        EditorState { buffer, cursors, viewport: Viewport::new(width, height), path }
    }

    /// The number of units in the document.
    pub fn len(&self) -> (r: usize)
        requires
            self.wf(),
        ensures
            r == self.text().len(),
    {
        self.buffer.len()
    }

    /// The whole text.
    pub fn contents(&self) -> (r: Vec<char>)
        requires
            self.wf(),
        ensures
            r@ == self.text(),
    {
        self.buffer.contents()
    }

    /// The characters of `[start, end)`.
    pub fn slice(&self, start: usize, end: usize) -> (r: Vec<char>)
        requires
            self.wf(),
            start <= end <= self.text().len(),
        ensures
            r@ == self.text().subrange(start as int, end as int),
    {
        proof {
            assert forall|k: int| 0 <= k < end - start implies (#[trigger] self.buffer.cells().subrange(
                start as int,
                end as int,
            )[k]) is Known by {
                assert(self.buffer.cells()[start + k] is Known);
            }
        }
        self.buffer.slice(start, end)
    }

    pub fn primary_cursor(&self) -> (r: Cursor)
        requires
            self.wf(),
        ensures
            r == self.cursors.primary_spec(),
    {
        proof {
            self.cursors.lemma_primary_in_range();
        }
        self.cursors.primary()
    }

    /// Makes an edit and moves every cursor to match.
    pub fn apply(&mut self, event: &Event)
        requires
            old(self).wf(),
            event@.applicable(old(self).text()),
            event@ matches Edit::Insert { text, .. } ==> old(self).text().len() + text.len() <= usize::MAX,
        ensures
            final(self).wf(),
            final(self).text() == event@.apply(old(self).text()),
            final(self).buffer.modified_spec() == (old(self).buffer.modified_spec() || changes(event@)),
            final(self).viewport == old(self).viewport,
            final(self).path == old(self).path,
            final(self).cursors.primary_index() == old(self).cursors.primary_index(),
            final(self).cursors.entries_spec().len() == old(self).cursors.entries_spec().len(),
            forall|i: int|
                0 <= i < old(self).cursors.entries_spec().len() ==> (#[trigger] final(self).cursors.entries_spec()[i]).0
                    == old(self).cursors.entries_spec()[i].0 && moved_for(
                    event@,
                    old(self).cursors.entries_spec()[i].1,
                    final(self).cursors.entries_spec()[i].1,
                ),
    {
        let ghost t0 = self.text();
        let ghost c0 = self.buffer.cells();
        proof {
            lemma_cells_known(c0);
        }
        match event {
            Event::Insert { position, text, .. } => {
                let chars = string_chars(text.as_str());
                let n = chars.len();
                self.buffer.insert(*position, chars);
                proof {
                    let t1 = event@.apply(t0);
                    assert(self.buffer.cells() =~= known(t1));
                    lemma_known_chars(t1);
                    assert forall|i: int| 0 <= i < self.cursors.entries_spec().len() implies (
                    #[trigger] self.cursors.entries_spec()[i]).1.within(usize::MAX - n) by {
                        assert(self.cursors.entries_spec()[i].1.within(t0.len() as int));
                    }
                }
                self.cursors.adjust_for_insert(*position, n);
                proof {
                    assert forall|i: int| 0 <= i < self.cursors.entries_spec().len() implies (
                    #[trigger] self.cursors.entries_spec()[i]).1.within(self.buffer.cells().len() as int) by {
                        assert(old(self).cursors.entries_spec()[i].1.within(t0.len() as int));
                    }
                }
            },
            Event::Delete { range, .. } => {
                self.buffer.delete(range.start, range.end);
                proof {
                    let t1 = event@.apply(t0);
                    assert(self.buffer.cells() =~= known(t1));
                    lemma_known_chars(t1);
                }
                self.cursors.adjust_for_delete(range.start, range.end);
                proof {
                    assert forall|i: int| 0 <= i < self.cursors.entries_spec().len() implies (
                    #[trigger] self.cursors.entries_spec()[i]).1.within(self.buffer.cells().len() as int) by {
                        assert(old(self).cursors.entries_spec()[i].1.within(t0.len() as int));
                    }
                }
            },
        }
    }

    /// Moves the primary cursor by content, drops its selection, and scrolls
    /// it into view.
    pub fn move_cursor(&mut self, m: Movement)
        requires
            old(self).wf(),
        ensures
            final(self).wf(),
            final(self).text() == old(self).text(),
            final(self).buffer == old(self).buffer,
            final(self).path == old(self).path,
            final(self).cursors.primary_spec().position == movement_target(
                old(self).text(),
                old(self).cursors.primary_spec().position as nat,
                m,
            ),
            final(self).cursors.primary_spec().anchor is None,
            final(self).viewport.wrap_spec() == old(self).viewport.wrap_spec(),
            final(self).viewport.width_spec() == old(self).viewport.width_spec(),
            final(self).viewport.height_spec() == old(self).viewport.height_spec(),
            final(self).viewport.wrap_spec() ==> final(self).viewport.left_spec() == 0,
            ({
                let t = final(self).text();
                let v = final(self).viewport;
                let p = final(self).cursors.primary_spec().position as nat;
                let lp = place(t, v.wrap_width(), p);
                v.height_spec() > 0 && v.width_spec() > 0 && lp.1 < place(
                    t,
                    v.wrap_width(),
                    line_start(t, lp.0),
                ).1 + v.height_spec()
            }) ==> final(self).viewport.screen_spec(
                final(self).text(),
                final(self).cursors.primary_spec().position as nat,
            ) is Some,
            final(self).viewport.wrap_spec() && final(self).viewport.screen_spec(
                final(self).text(),
                final(self).cursors.primary_spec().position as nat,
            ) is Some ==> final(self).viewport.screen_spec(
                final(self).text(),
                line_start(
                    final(self).text(),
                    line_of(final(self).text(), final(self).cursors.primary_spec().position as nat),
                ),
            ) is Some,
    {
        let t = self.buffer.contents();
        let p = self.cursors.primary().position;
        proof {
            self.cursors.lemma_primary_in_range();
            assert(self.cursors.entries_spec()[self.cursors.primary_index()].1.within(t@.len() as int));
        }
        let target = self.target_of(&t, p, m);
        self.cursors.set_primary(Cursor::new(target));
        self.viewport.scroll_to(&t, target);
        proof {
            if self.viewport.wrap_spec() && self.viewport.screen_spec(t@, target as nat) is Some {
                self.viewport.lemma_line_start_shown(t@, target as nat);
                lemma_line_indep(t@, self.viewport.wrap_width(), target as nat);
            }
            assert forall|i: int| 0 <= i < self.cursors.entries_spec().len() implies (
            #[trigger] self.cursors.entries_spec()[i]).1.within(t@.len() as int) by {
                if i != self.cursors.primary_index() {
                    assert(old(self).cursors.entries_spec()[i].1.within(t@.len() as int));
                }
            }
        }
    }

    fn target_of(&self, t: &Vec<char>, p: usize, m: Movement) -> (r: usize)
        requires
            p <= t@.len(),
        ensures
            r == movement_target(t@, p as nat, m),
            r <= t@.len(),
    {
        match m {
            Movement::Left => if p > 0 {
                p - 1
            } else {
                0
            },
            Movement::Right => if p < t.len() {
                p + 1
            } else {
                p
            },
            Movement::LineStart => {
                let line = place_at(t, 0, p).0;
                proof {
                    lemma_start_of_line(t@, 0, p as nat);
                }
                find_line_start(t, line)
            },
            Movement::LineEnd => {
                proof {
                    lemma_line_end_bounds(t@, p as nat);
                }
                find_line_end(t, p)
            },
            Movement::Up => {
                let line = place_at(t, 0, p).0;
                proof {
                    lemma_start_of_line(t@, 0, p as nat);
                }
                if line == 0 {
                    return p;
                }
                let col = p - find_line_start(t, line);
                let s = find_line_start(t, line - 1);
                proof {
                    lemma_line_start_bounds(t@, (line - 1) as nat);
                    lemma_line_end_bounds(t@, s as nat);
                }
                let e = find_line_end(t, s);
                if col <= e - s {
                    s + col
                } else {
                    e
                }
            },
            Movement::WordRight => {
                let q = skip_forward_at(t, p, true);
                skip_forward_at(t, q, false)
            },
            Movement::WordLeft => {
                let q = skip_backward_at(t, p, true);
                skip_backward_at(t, q, false)
            },
            Movement::Down => {
                proof {
                    lemma_line_end_bounds(t@, p as nat);
                }
                let e = find_line_end(t, p);
                if e >= t.len() {
                    return p;
                }
                let line = place_at(t, 0, p).0;
                proof {
                    lemma_start_of_line(t@, 0, p as nat);
                }
                let col = p - find_line_start(t, line);
                let s = e + 1;
                proof {
                    lemma_line_end_bounds(t@, s as nat);
                }
                let e2 = find_line_end(t, s);
                if col <= e2 - s {
                    s + col
                } else {
                    e2
                }
            },
        }
    }

    /// Places the primary cursor at `position` with its selection reaching back
    /// to `anchor`.
    pub fn select(&mut self, anchor: usize, position: usize)
        requires
            old(self).wf(),
            anchor <= old(self).text().len(),
            position <= old(self).text().len(),
        ensures
            final(self).wf(),
            final(self).text() == old(self).text(),
            final(self).buffer == old(self).buffer,
            final(self).viewport == old(self).viewport,
            final(self).path == old(self).path,
            final(self).cursors.primary_spec().position == position,
            final(self).cursors.primary_spec().anchor == Some(anchor),
            final(self).cursors.entries_spec().len() == old(self).cursors.entries_spec().len(),
            final(self).cursors.primary_index() == old(self).cursors.primary_index(),
            final(self).cursors.entries_spec() == old(self).cursors.entries_spec().update(
                old(self).cursors.primary_index(),
                (
                    old(self).cursors.entries_spec()[old(self).cursors.primary_index()].0,
                    Cursor { position, anchor: Some(anchor) },
                ),
            ),
    {
        proof {
            self.cursors.lemma_primary_in_range();
        }
        self.cursors.set_primary(Cursor::with_selection(anchor, position));
        proof {
            assert forall|i: int| 0 <= i < self.cursors.entries_spec().len() implies (
            #[trigger] self.cursors.entries_spec()[i]).1.within(self.buffer.cells().len() as int) by {
                if i != self.cursors.primary_index() {
                    assert(old(self).cursors.entries_spec()[i].1.within(self.buffer.cells().len() as int));
                }
            }
        }
    }

    /// Resizes the view.
    pub fn resize(&mut self, width: u16, height: u16)
        requires
            old(self).wf(),
        ensures
            final(self).wf(),
            final(self).text() == old(self).text(),
            final(self).buffer == old(self).buffer,
            final(self).cursors == old(self).cursors,
            final(self).path == old(self).path,
            final(self).viewport.width_spec() == width,
            final(self).viewport.height_spec() == height,
            final(self).viewport.wrap_spec() == old(self).viewport.wrap_spec(),
    {
        self.viewport.resize(width, height);
    }

    /// The primary cursor's logical line and column.
    pub fn cursor_line_col(&self) -> (r: (usize, usize))
        requires
            self.wf(),
        ensures
            r.0 == line_of(self.text(), self.cursors.primary_spec().position as nat),
            r.1 == column_of(self.text(), self.cursors.primary_spec().position as nat),
    {
        let t = self.buffer.contents();
        let p = self.cursors.primary().position;
        proof {
            self.cursors.lemma_primary_in_range();
            assert(self.cursors.entries_spec()[self.cursors.primary_index()].1.within(t@.len() as int));
            lemma_start_of_line(t@, 0, p as nat);
        }
        let line = place_at(&t, 0, p).0;
        (line, p - find_line_start(&t, line))
    }

    /// The screen cell of the primary cursor, when it is on the screen.
    pub fn cursor_screen_position(&self) -> (r: Option<(usize, usize)>)
        requires
            self.wf(),
        ensures
            r matches Some((x, y)) ==> self.viewport.screen_spec(
                self.text(),
                self.cursors.primary_spec().position as nat,
            ) == Some((x as nat, y as nat)),
            r is None ==> self.viewport.screen_spec(
                self.text(),
                self.cursors.primary_spec().position as nat,
            ) is None,
    {
        let t = self.buffer.contents();
        let p = self.cursors.primary().position;
        proof {
            self.cursors.lemma_primary_in_range();
            assert(self.cursors.entries_spec()[self.cursors.primary_index()].1.within(t@.len() as int));
        }
        self.viewport.screen_position(&t, p)
    }

    /// The position shown at screen cell `(x, y)`.
    pub fn position_at(&self, x: usize, y: usize) -> (r: Option<usize>)
        requires
            self.wf(),
        ensures
            forall|p: nat| #[trigger] self.viewport.screen_spec(self.text(), p) == Some((x as nat, y as nat))
                ==> r == Some(p as usize),
            r matches Some(q) ==> q <= self.text().len(),
    {
        let t = self.buffer.contents();
        self.viewport.buffer_position(&t, x, y)
    }
}

} // verus!
