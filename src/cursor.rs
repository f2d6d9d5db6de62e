use vstd::prelude::*;

use std::ops::Range;

verus! {

/// Identity of a cursor, stable for the cursor's lifetime within one document.
#[derive(Clone, Copy, Debug, PartialEq, Eq, Hash, Structural)]
pub struct CursorId(pub usize);

/// An insertion point with an optional anchor; the two bound the selection.
#[derive(Clone, Copy, Debug)]
pub struct Cursor {
    pub position: usize,
    pub anchor: Option<usize>,
}

/// Where a position lands after `len` units are inserted at `at`.
pub open spec fn shift_for_insert(p: int, at: int, len: int) -> int {
    if p >= at {
        p + len
    } else {
        p
    }
}

/// Where a position lands after the units `[start, end)` are deleted.
pub open spec fn shift_for_delete(p: int, start: int, end: int) -> int {
    if p >= end {
        p - (end - start)
    } else if p > start {
        start
    } else {
        p
    }
}

pub open spec fn shift_opt_insert(a: Option<usize>, at: int, len: int) -> Option<usize> {
    match a {
        Some(p) => Some(shift_for_insert(p as int, at, len) as usize),
        None => None,
    }
}

pub open spec fn shift_opt_delete(a: Option<usize>, start: int, end: int) -> Option<usize> {
    match a {
        Some(p) => Some(shift_for_delete(p as int, start, end) as usize),
        None => None,
    }
}

impl Cursor {
    /// Both ends of the cursor lie at or before `n`.
    pub open spec fn within(&self, n: int) -> bool {
        &&& self.position <= n
        &&& (self.anchor matches Some(a) ==> a <= n)
    }

    /// The selected span, when the anchor is set and differs from the position.
    pub open spec fn selection_spec(&self) -> Option<(usize, usize)> {
        match self.anchor {
            Some(a) => if a < self.position {
                Some((a, self.position))
            } else if a > self.position {
                Some((self.position, a))
            } else {
                None
            },
            None => None,
        }
    }

    pub fn new(position: usize) -> (r: Cursor)
        ensures
            r.position == position,
            r.anchor is None,
    {
        Cursor { position, anchor: None }
    }

    /// A cursor at `position` whose selection extends to `anchor`.
    pub fn with_selection(anchor: usize, position: usize) -> (r: Cursor)
        ensures
            r.position == position,
            r.anchor == Some(anchor),
    {
        Cursor { position, anchor: Some(anchor) }
    }

    /// The span between anchor and position, in order, when they differ.
    pub fn selection_range(&self) -> (r: Option<Range<usize>>)
        ensures
            r matches Some(rg) ==> self.selection_spec() == Some((rg.start, rg.end)),
            r is None ==> self.selection_spec() is None,
    {
        match self.anchor {
            Some(a) => {
                if a < self.position {
                    Some(Range { start: a, end: self.position })
                } else if a > self.position {
                    Some(Range { start: self.position, end: a })
                } else {
                    None
                }
            },
            None => None,
        }
    }

    /// Drops the selection and keeps the position.
    pub fn clear_selection(&mut self)
        ensures
            final(self).position == old(self).position,
            final(self).anchor is None,
    {
        self.anchor = None;
    }

    /// Moves the cursor as an insertion of `len` units at `at` requires.
    pub fn adjust_for_insert(&mut self, at: usize, len: usize)
        requires
            old(self).within(usize::MAX - len),
        ensures
            final(self).position == shift_for_insert(old(self).position as int, at as int, len as int),
            final(self).anchor == shift_opt_insert(old(self).anchor, at as int, len as int),
    {
        if self.position >= at {
            self.position = self.position + len;
        }
        if let Some(a) = self.anchor {
            if a >= at {
                self.anchor = Some(a + len);
            }
        }
    }

    /// Moves the cursor as a deletion of `[start, end)` requires.
    pub fn adjust_for_delete(&mut self, start: usize, end: usize)
        requires
            start <= end,
        ensures
            final(self).position == shift_for_delete(old(self).position as int, start as int, end as int),
            final(self).anchor == shift_opt_delete(old(self).anchor, start as int, end as int),
    {
        self.position = shift_position_for_delete(self.position, start, end);
        if let Some(a) = self.anchor {
            self.anchor = Some(shift_position_for_delete(a, start, end));
        }
    }
}

fn shift_position_for_delete(p: usize, start: usize, end: usize) -> (r: usize)
    requires
        start <= end,
    ensures
        r == shift_for_delete(p as int, start as int, end as int),
{
    if p >= end {
        p - (end - start)
    } else if p > start {
        start
    } else {
        p
    }
}

/// All cursors of one document, in order of creation, one of them primary.
pub struct CursorSet {
    entries: Vec<(CursorId, Cursor)>,
    primary: usize,
    next_id: usize,
}

impl CursorSet {
    /// The cursors, in order of creation.
    pub closed spec fn entries_spec(&self) -> Seq<(CursorId, Cursor)> {
        self.entries@
    }

    /// The identity the next added cursor gets.
    pub closed spec fn next_id_spec(&self) -> nat {
        self.next_id as nat
    }

    /// The index of the primary cursor in `entries_spec`.
    pub closed spec fn primary_index(&self) -> int {
        self.primary as int
    }

    pub closed spec fn wf(&self) -> bool {
        &&& self.entries@.len() > 0
        &&& self.primary < self.entries@.len()
        &&& forall|i: int, j: int|
            0 <= i < j < self.entries@.len() ==> (#[trigger] self.entries@[i]).0 != (
            #[trigger] self.entries@[j]).0
        &&& forall|i: int| 0 <= i < self.entries@.len() ==> (#[trigger] self.entries@[i]).0.0 < self.next_id
    }

    /// Every cursor lies within a document of `n` units.
    pub open spec fn within(&self, n: int) -> bool {
        forall|i: int| 0 <= i < self.entries_spec().len() ==> (#[trigger] self.entries_spec()[i]).1.within(n)
    }

    pub open spec fn primary_spec(&self) -> Cursor {
        self.entries_spec()[self.primary_index()].1
    }

    /// The primary cursor is one of the cursors.
    pub proof fn lemma_primary_in_range(&self)
        requires
            self.wf(),
        ensures
            0 <= self.primary_index() < self.entries_spec().len(),
    {
    }

    /// One cursor at the start of the document, with the first identity.
    pub fn new() -> (r: CursorSet)
        ensures
            r.wf(),
            r.entries_spec() == seq![(CursorId(0), Cursor { position: 0, anchor: None })],
            r.primary_index() == 0,
    {
        let mut entries = Vec::new();
        entries.push((CursorId(0), Cursor::new(0)));
        CursorSet { entries, primary: 0, next_id: 1 }
    }

    pub fn len(&self) -> (r: usize)
        ensures
            r == self.entries_spec().len(),
    {
        self.entries.len()
    }

    /// The `i`-th cursor in order of creation.
    pub fn get(&self, i: usize) -> (r: (CursorId, Cursor))
        requires
            i < self.entries_spec().len(),
        ensures
            r == self.entries_spec()[i as int],
    {
        self.entries[i]
    }

    pub fn primary_id(&self) -> (r: CursorId)
        requires
            self.wf(),
        ensures
            r == self.entries_spec()[self.primary_index()].0,
    {
        self.entries[self.primary].0
    }

    pub fn primary(&self) -> (r: Cursor)
        requires
            self.wf(),
        ensures
            r == self.primary_spec(),
    {
        self.entries[self.primary].1
    }

    /// Replaces the primary cursor's position and anchor.
    pub fn set_primary(&mut self, c: Cursor)
        requires
            old(self).wf(),
        ensures
            final(self).wf(),
            final(self).primary_index() == old(self).primary_index(),
            final(self).entries_spec() == old(self).entries_spec().update(
                old(self).primary_index(),
                (old(self).entries_spec()[old(self).primary_index()].0, c),
            ),
    {
        let id = self.entries[self.primary].0;
        self.entries.set(self.primary, (id, c));
        proof {
            assert forall|i: int| 0 <= i < self.entries@.len() implies (#[trigger] self.entries@[i]).0.0 < self.next_id by {
                assert(old(self).entries@[i].0 == self.entries@[i].0);
            }
            assert forall|i: int, j: int|
                0 <= i < j < self.entries@.len() implies (#[trigger] self.entries@[i]).0 != (
                #[trigger] self.entries@[j]).0 by {
                assert(old(self).entries@[i].0 == self.entries@[i].0);
                assert(old(self).entries@[j].0 == self.entries@[j].0);
            }
        }
    }

    /// Adds a cursor with a fresh identity, after all others.
    pub fn add(&mut self, c: Cursor) -> (r: Option<CursorId>)
        requires
            old(self).wf(),
        ensures
            final(self).wf(),
            final(self).primary_index() == old(self).primary_index(),
            r matches Some(id) ==> final(self).entries_spec() == old(self).entries_spec().push((id, c))
                && forall|i: int| 0 <= i < old(self).entries_spec().len() ==> (
                #[trigger] old(self).entries_spec()[i]).0 != id,
            r is None ==> final(self).entries_spec() == old(self).entries_spec(),
            r is None <==> old(self).next_id_spec() == usize::MAX,
    {
        if self.next_id == usize::MAX {
            return None;
        }
        let id = CursorId(self.next_id);
        self.entries.push((id, c));
        self.next_id = self.next_id + 1;
        proof {
            assert forall|i: int, j: int|
                0 <= i < j < self.entries@.len() implies (#[trigger] self.entries@[i]).0 != (
                #[trigger] self.entries@[j]).0 by {
                if j == self.entries@.len() - 1 {
                    assert(old(self).entries@[i].0.0 < old(self).next_id);
                } else {
                    assert(old(self).entries@[i] == self.entries@[i]);
                    assert(old(self).entries@[j] == self.entries@[j]);
                }
            }
            assert forall|i: int| 0 <= i < self.entries@.len() implies (#[trigger] self.entries@[i]).0.0 < self.next_id by {
                if i < old(self).entries@.len() {
                    assert(old(self).entries@[i] == self.entries@[i]);
                }
            }
        }
        Some(id)
    }

    /// Moves every cursor as an insertion of `len` units at `at` requires.
    pub fn adjust_for_insert(&mut self, at: usize, len: usize)
        requires
            old(self).wf(),
            old(self).within(usize::MAX - len),
        ensures
            final(self).wf(),
            final(self).primary_index() == old(self).primary_index(),
            final(self).entries_spec().len() == old(self).entries_spec().len(),
            forall|i: int|
                0 <= i < old(self).entries_spec().len() ==> {
                    let (id0, c0) = old(self).entries_spec()[i];
                    let (id1, c1) = #[trigger] final(self).entries_spec()[i];
                    &&& id1 == id0
                    &&& c1.position == shift_for_insert(c0.position as int, at as int, len as int)
                    &&& c1.anchor == shift_opt_insert(c0.anchor, at as int, len as int)
                },
    {
        let n = self.entries.len();
        let mut i: usize = 0;
        while i < n
            invariant
                n == self.entries@.len() == old(self).entries@.len(),
                i <= n,
                self.primary == old(self).primary,
                self.next_id == old(self).next_id,
                old(self).wf(),
                old(self).within(usize::MAX - len),
                forall|k: int| 0 <= k < n ==> (#[trigger] self.entries@[k]).0 == old(self).entries@[k].0,
                forall|k: int|
                    i <= k < n ==> (#[trigger] self.entries@[k]).1 == old(self).entries@[k].1,
                forall|k: int|
                    0 <= k < i ==> {
                        let c0 = old(self).entries@[k].1;
                        let c1 = (#[trigger] self.entries@[k]).1;
                        &&& c1.position == shift_for_insert(c0.position as int, at as int, len as int)
                        &&& c1.anchor == shift_opt_insert(c0.anchor, at as int, len as int)
                    },
            decreases n - i,
        {
            let (id, mut c) = self.entries[i];
            proof {
                assert(old(self).entries_spec()[i as int].1.within(usize::MAX - len));
            }
            c.adjust_for_insert(at, len);
            self.entries.set(i, (id, c));
            i = i + 1;
        }
        proof {
            assert forall|a: int, b: int|
                0 <= a < b < self.entries@.len() implies (#[trigger] self.entries@[a]).0 != (
                #[trigger] self.entries@[b]).0 by {
                assert(old(self).entries@[a].0 != old(self).entries@[b].0);
            }
            assert forall|a: int| 0 <= a < self.entries@.len() implies (#[trigger] self.entries@[a]).0.0 < self.next_id by {
                assert(old(self).entries@[a].0.0 < old(self).next_id);
            }
        }
    }

    /// Moves every cursor as a deletion of `[start, end)` requires.
    pub fn adjust_for_delete(&mut self, start: usize, end: usize)
        requires
            old(self).wf(),
            start <= end,
        ensures
            final(self).wf(),
            final(self).primary_index() == old(self).primary_index(),
            final(self).entries_spec().len() == old(self).entries_spec().len(),
            forall|i: int|
                0 <= i < old(self).entries_spec().len() ==> {
                    let (id0, c0) = old(self).entries_spec()[i];
                    let (id1, c1) = #[trigger] final(self).entries_spec()[i];
                    &&& id1 == id0
                    &&& c1.position == shift_for_delete(c0.position as int, start as int, end as int)
                    &&& c1.anchor == shift_opt_delete(c0.anchor, start as int, end as int)
                },
    {
        let n = self.entries.len();
        let mut i: usize = 0;
        while i < n
            invariant
                n == self.entries@.len() == old(self).entries@.len(),
                i <= n,
                start <= end,
                self.primary == old(self).primary,
                self.next_id == old(self).next_id,
                old(self).wf(),
                forall|k: int| 0 <= k < n ==> (#[trigger] self.entries@[k]).0 == old(self).entries@[k].0,
                forall|k: int|
                    i <= k < n ==> (#[trigger] self.entries@[k]).1 == old(self).entries@[k].1,
                forall|k: int|
                    0 <= k < i ==> {
                        let c0 = old(self).entries@[k].1;
                        let c1 = (#[trigger] self.entries@[k]).1;
                        &&& c1.position == shift_for_delete(c0.position as int, start as int, end as int)
                        &&& c1.anchor == shift_opt_delete(c0.anchor, start as int, end as int)
                    },
            decreases n - i,
        {
            let (id, mut c) = self.entries[i];
            c.adjust_for_delete(start, end);
            self.entries.set(i, (id, c));
            i = i + 1;
        }
        proof {
            assert forall|a: int, b: int|
                0 <= a < b < self.entries@.len() implies (#[trigger] self.entries@[a]).0 != (
                #[trigger] self.entries@[b]).0 by {
                assert(old(self).entries@[a].0 != old(self).entries@[b].0);
            }
            assert forall|a: int| 0 <= a < self.entries@.len() implies (#[trigger] self.entries@[a]).0.0 < self.next_id by {
                assert(old(self).entries@[a].0.0 < old(self).next_id);
            }
        }
    }
}

/// With cursors at `a < b < c`, inserting `len` units at a position no
/// later than `a` moves all three forward by `len`; deleting a range that
/// holds `b` moves `b` to the range's start, leaves `a`
/// (before the range) alone and moves `c` (after it) back by the range's
/// length.
pub proof fn lemma_multi_cursor_shift(
    a: int,
    b: int,
    c: int,
    at: int,
    len: int,
    start: int,
    end: int,
)
    requires
        a < b < c,
        at <= a,
        a <= start <= b < end <= c,
    ensures
        shift_for_insert(a, at, len) == a + len,
        shift_for_insert(b, at, len) == b + len,
        shift_for_insert(c, at, len) == c + len,
        shift_for_delete(a, start, end) == a,
        shift_for_delete(b, start, end) == start,
        shift_for_delete(c, start, end) == c - (end - start),
{
}

} // verus!
