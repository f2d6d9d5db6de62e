use vstd::prelude::*;

use std::ops::Range;

use crate::lines::{
    before, find_line_start, lemma_col_bound, lemma_line_start_bounds, lemma_line_start_mono,
    lemma_place_mono, lemma_start_of_line, line_start, place, place_at,
};

verus! {

/// The screen cell `(x, y)` of position `p`, for a view whose first row is
/// the first row of position `top` and whose first column is `left`; none when
/// `p` is off the screen.
pub open spec fn screen_of(
    t: Seq<char>,
    w: nat,
    top: nat,
    left: nat,
    width: nat,
    height: nat,
    p: nat,
) -> Option<(nat, nat)> {
    let a = place(t, w, top);
    let b = place(t, w, p);
    if top <= p <= t.len() && a.1 <= b.1 < a.1 + height && left <= b.2 < left + width {
        Some(((b.2 - left) as nat, (b.1 - a.1) as nat))
    } else {
        None
    }
}

/// The column of a screen cell, if there is one.
pub open spec fn cell_x(o: Option<(nat, nat)>) -> nat {
    match o {
        Some((x, _)) => x,
        None => 0,
    }
}

/// The row of a screen cell, if there is one.
pub open spec fn cell_y(o: Option<(nat, nat)>) -> nat {
    match o {
        Some((_, y)) => y,
        None => 0,
    }
}

/// `a` is at or before `b` on the display.
pub open spec fn at_or_before(a: (nat, nat, nat), b: (nat, nat, nat)) -> bool {
    before(a, b) || (a.1 == b.1 && a.2 == b.2)
}

proof fn lemma_place_bounds(t: Seq<char>, w: nat, p: nat)
    ensures
        place(t, w, p).0 <= p,
        place(t, w, p).1 <= p,
        place(t, w, p).2 <= p,
    decreases p,
{
    if p > 0 && p <= t.len() {
        lemma_place_bounds(t, w, (p - 1) as nat);
    }
}

proof fn lemma_line_start_col(t: Seq<char>, w: nat, n: nat)
    ensures
        place(t, w, line_start(t, n)).2 == 0,
{
    lemma_line_start_bounds(t, n);
}

/// A line start at or before `p` is at or before the start of `p`'s line.
proof fn lemma_start_before(t: Seq<char>, w: nat, n: nat, p: nat)
    requires
        line_start(t, n) <= p <= t.len(),
    ensures
        line_start(t, n) <= line_start(t, place(t, w, p).0),
{
    lemma_start_of_line(t, w, p);
    lemma_line_start_bounds(t, n);
    let s = line_start(t, n);
    let ls = line_start(t, place(t, w, p).0);
    if s > ls {
        assert(t[s - 1] == '\n');
    }
}

/// The visible window over a document: its size, the first line shown, and
/// either a horizontal scroll offset or soft wrapping, never both.
pub struct Viewport {
    width: u16,
    height: u16,
    top_line: usize,
    left_column: usize,
    wrap: bool,
}

impl Viewport {
    pub closed spec fn width_spec(&self) -> nat {
        self.width as nat
    }

    pub closed spec fn height_spec(&self) -> nat {
        self.height as nat
    }

    pub closed spec fn top_line_spec(&self) -> nat {
        self.top_line as nat
    }

    pub closed spec fn left_spec(&self) -> nat {
        self.left_column as nat
    }

    pub closed spec fn wrap_spec(&self) -> bool {
        self.wrap
    }

    /// While wrapping, no horizontal scroll offset is kept.
    pub open spec fn wf(&self) -> bool {
        self.wrap_spec() ==> self.left_spec() == 0
    }

    /// The wrap width: the view's width while wrapping, else none.
    pub open spec fn wrap_width(&self) -> nat {
        if self.wrap_spec() {
            self.width_spec()
        } else {
            0
        }
    }

    /// Where the first shown line starts in `t`.
    pub open spec fn top_spec(&self, t: Seq<char>) -> nat {
        line_start(t, self.top_line_spec())
    }

    /// The screen cell of position `p` of `t`, if it is on the screen.
    pub open spec fn screen_spec(&self, t: Seq<char>, p: nat) -> Option<(nat, nat)> {
        screen_of(
            t,
            self.wrap_width(),
            self.top_spec(t),
            self.left_spec(),
            self.width_spec(),
            self.height_spec(),
            p,
        )
    }

    /// A view of the given size at the top of the document, wrapping.
    pub fn new(width: u16, height: u16) -> (r: Viewport)
        ensures
            r.wf(),
            r.width_spec() == width,
            r.height_spec() == height,
            r.top_line_spec() == 0,
            r.left_spec() == 0,
            r.wrap_spec(),
    {
        Viewport { width, height, top_line: 0, left_column: 0, wrap: true }
    }

    pub fn resize(&mut self, width: u16, height: u16)
        requires
            old(self).wf(),
        ensures
            final(self).wf(),
            final(self).width_spec() == width,
            final(self).height_spec() == height,
            final(self).top_line_spec() == old(self).top_line_spec(),
            final(self).left_spec() == old(self).left_spec(),
            final(self).wrap_spec() == old(self).wrap_spec(),
    {
        self.width = width;
        self.height = height;
    }

    /// Turns wrapping on or off; turning it on drops the horizontal offset.
    pub fn set_wrap(&mut self, wrap: bool)
        requires
            old(self).wf(),
        ensures
            final(self).wf(),
            final(self).wrap_spec() == wrap,
            final(self).width_spec() == old(self).width_spec(),
            final(self).height_spec() == old(self).height_spec(),
            final(self).top_line_spec() == old(self).top_line_spec(),
            wrap ==> final(self).left_spec() == 0,
            !wrap ==> final(self).left_spec() == old(self).left_spec(),
    {
        self.wrap = wrap;
        if wrap {
            self.left_column = 0;
        }
    }

    pub fn width(&self) -> (r: u16)
        ensures
            r == self.width_spec(),
    {
        self.width
    }

    pub fn height(&self) -> (r: u16)
        ensures
            r == self.height_spec(),
    {
        self.height
    }

    pub fn wrap(&self) -> (r: bool)
        ensures
            r == self.wrap_spec(),
    {
        self.wrap
    }

    pub fn top_line(&self) -> (r: usize)
        ensures
            r == self.top_line_spec(),
    {
        self.top_line
    }

    pub fn left_column(&self) -> (r: usize)
        ensures
            r == self.left_spec(),
    {
        self.left_column
    }

    /// The logical lines that may be shown: from the first shown line, as many
    /// as the view has rows.
    pub fn visible_range(&self) -> (r: Range<usize>)
        ensures
            r.start == self.top_line_spec(),
            r.end == if self.top_line_spec() + self.height_spec() <= usize::MAX {
                (self.top_line_spec() + self.height_spec()) as int
            } else {
                usize::MAX as int
            },
    {
        let end = if self.top_line <= usize::MAX - self.height as usize {
            self.top_line + self.height as usize
        } else {
            usize::MAX
        };
        Range { start: self.top_line, end }
    }

    fn eff_width(&self) -> (r: usize)
        ensures
            r == self.wrap_width(),
    {
        if self.wrap {
            self.width as usize
        } else {
            0
        }
    }

    /// The screen cell of position `p` of `t`, if it is on the screen.
    pub fn screen_position(&self, t: &Vec<char>, p: usize) -> (r: Option<(usize, usize)>)
        requires
            p <= t@.len(),
        ensures
            r matches Some((x, y)) ==> self.screen_spec(t@, p as nat) == Some((x as nat, y as nat)),
            r is None ==> self.screen_spec(t@, p as nat) is None,
    {
        let w = self.eff_width();
        let top = find_line_start(t, self.top_line);
        proof {
            lemma_line_start_bounds(t@, self.top_line as nat);
        }
        if p < top {
            return None;
        }
        let a = place_at(t, w, top);
        let b = place_at(t, w, p);
        if b.1 < a.1 || b.1 - a.1 >= self.height as usize {
            return None;
        }
        if b.2 < self.left_column || b.2 - self.left_column >= self.width as usize {
            return None;
        }
        Some((b.2 - self.left_column, b.1 - a.1))
    }

    /// The position shown at screen cell `(x, y)` of `t`; a cell past the end
    /// of a row gives the row's last position. It is the left inverse of
    /// `screen_position`.
    pub fn buffer_position(&self, t: &Vec<char>, x: usize, y: usize) -> (r: Option<usize>)
        requires
            self.wf(),
        ensures
            forall|p: nat| #[trigger] self.screen_spec(t@, p) == Some((x as nat, y as nat)) ==> r == Some(p as usize),
            r matches Some(q) ==> q <= t@.len(),
    {
        let w = self.eff_width();
        let top = find_line_start(t, self.top_line);
        proof {
            lemma_line_start_bounds(t@, self.top_line as nat);
        }
        let a = place_at(t, w, top);
        if y >= self.height as usize || x >= self.width as usize {
            return None;
        }
        let n = t.len();
        proof {
            assert forall|p: nat| #[trigger] self.screen_spec(t@, p) == Some((x as nat, y as nat)) implies a.1 + y <= t@.len() && self.left_column + x <= t@.len() by {
                lemma_place_bounds(t@, w as nat, p);
            }
        }
        let row = match a.1.checked_add(y) {
            Some(v) => v,
            None => return None,
        };
        let col = match self.left_column.checked_add(x) {
            Some(v) => v,
            None => return None,
        };
        let ghost target: (nat, nat, nat) = (0, row as nat, col as nat);
        if row == a.1 && col < a.2 {
            proof {
                assert forall|p: nat| #[trigger] self.screen_spec(t@, p) == Some((x as nat, y as nat)) implies false by {
                    if top < p {
                        lemma_place_mono(t@, w as nat, top as nat, p);
                    }
                }
            }
            return None;
        }
        let mut q = top;
        let mut line = a.0;
        let mut r = a.1;
        let mut c = a.2;
        let mut past = false;
        while !past && q < n
            invariant
                top <= q <= n == t@.len(),
                (line as nat, r as nat, c as nat) == place(t@, w as nat, q as nat),
                at_or_before(place(t@, w as nat, q as nat), target),
                target == (0nat, row as nat, col as nat),
                past ==> q < n && !at_or_before(place(t@, w as nat, (q + 1) as nat), target),
            decreases n - q + (if past {
                0int
            } else {
                1int
            }),
        {
            proof {
                lemma_place_bounds(t@, w as nat, q as nat);
            }
            let (nl, nr, nc) = if t[q] == '\n' {
                (line + 1, r + 1, 0)
            } else if w > 0 && c + 1 >= w {
                (line, r + 1, 0)
            } else {
                (line, r, c + 1)
            };
            if nr < row || (nr == row && nc <= col) {
                line = nl;
                r = nr;
                c = nc;
                q = q + 1;
            } else {
                past = true;
            }
        }
        proof {
            assert forall|p: nat| #[trigger] self.screen_spec(t@, p) == Some((x as nat, y as nat)) implies q == p by {
                let pp = place(t@, w as nat, p);
                assert(pp.1 == row && pp.2 == col);
                if p > q {
                    if p > q + 1 {
                        lemma_place_mono(t@, w as nat, (q + 1) as nat, p);
                    }
                } else if p < q {
                    lemma_place_mono(t@, w as nat, p, q as nat);
                }
            }
        }
        if r == row {
            Some(q)
        } else {
            None
        }
    }

    /// Scrolls the least needed to show position `p` of `t`: vertically by
    /// whole lines, and, without wrapping, horizontally by columns.
    pub fn scroll_to(&mut self, t: &Vec<char>, p: usize)
        requires
            old(self).wf(),
            p <= t@.len(),
        ensures
            final(self).wf(),
            final(self).width_spec() == old(self).width_spec(),
            final(self).height_spec() == old(self).height_spec(),
            final(self).wrap_spec() == old(self).wrap_spec(),
            final(self).wrap_spec() ==> final(self).left_spec() == 0,
            final(self).top_line_spec() <= place(t@, final(self).wrap_width(), p as nat).0,
            ({
                let w = final(self).wrap_width();
                let lp = place(t@, w, p as nat);
                let start = place(t@, w, line_start(t@, lp.0));
                final(self).height_spec() > 0 && final(self).width_spec() > 0 && lp.1 < start.1
                    + final(self).height_spec()
            }) ==> final(self).screen_spec(t@, p as nat) is Some,
    {
        let w = self.eff_width();
        let pl = place_at(t, w, p);
        let lp = pl.0;
        let height = self.height as usize;
        if self.top_line > lp {
            self.top_line = lp;
        }
        let mut fits = false;
        while !fits && self.top_line < lp
            invariant
                self.wf(),
                self.top_line <= lp,
                lp == pl.0,
                w == self.wrap_width(),
                height == self.height,
                p <= t@.len(),
                (pl.0 as nat, pl.1 as nat, pl.2 as nat) == place(t@, w as nat, p as nat),
                self.width == old(self).width,
                self.height == old(self).height,
                self.wrap == old(self).wrap,
                self.left_column == old(self).left_column,
                fits ==> place(t@, w as nat, p as nat).1 < place(
                    t@,
                    w as nat,
                    line_start(t@, self.top_line as nat),
                ).1 + height,
            decreases lp - self.top_line + (if fits {
                0int
            } else {
                1int
            }),
        {
            let s = find_line_start(t, self.top_line);
            proof {
                lemma_line_start_bounds(t@, self.top_line as nat);
                lemma_line_start_mono(t@, self.top_line as nat, lp as nat);
                lemma_start_of_line(t@, w as nat, p as nat);
                if s < p {
                    lemma_place_mono(t@, w as nat, s as nat, p as nat);
                }
            }
            let a = place_at(t, w, s);
            if pl.1 - a.1 < height {
                fits = true;
            } else {
                self.top_line = self.top_line + 1;
            }
        }
        if !self.wrap && self.width > 0 {
            let width = self.width as usize;
            if pl.2 < self.left_column {
                self.left_column = pl.2;
            } else if pl.2 - self.left_column >= width {
                self.left_column = pl.2 - width + 1;
            }
        }
        proof {
            let tt = t@;
            let wn = w as nat;
            let top = line_start(tt, self.top_line as nat);
            let ls = line_start(tt, lp as nat);
            lemma_start_of_line(tt, wn, p as nat);
            lemma_line_start_mono(tt, self.top_line as nat, lp as nat);
            lemma_line_start_bounds(tt, self.top_line as nat);
            if top < p {
                lemma_place_mono(tt, wn, top, p as nat);
            }
            if ls < p {
                lemma_place_mono(tt, wn, ls, p as nat);
            }
            if top < ls {
                lemma_place_mono(tt, wn, top, ls);
            }
            if self.wrap && self.width > 0 {
                lemma_col_bound(tt, wn, p as nat);
            }
        }
    }

    /// Cell `(x, y)` shows character `c` of `t`.
    pub open spec fn shows(&self, t: Seq<char>, cell: (usize, usize, char)) -> bool {
        exists|p: nat|
            p < t.len() && t[p as int] != '\n' && #[trigger] self.screen_spec(t, p) == Some(
                (cell.0 as nat, cell.1 as nat),
            ) && cell.2 == t[p as int]
    }

    /// The characters on the screen, each with its cell: every character of
    /// `t` (line breaks aside) whose position is on the screen, and no other.
    pub fn visible_cells(&self, t: &Vec<char>) -> (r: Vec<(usize, usize, char)>)
        requires
            self.wf(),
        ensures
            forall|i: int| 0 <= i < r@.len() ==> self.shows(t@, #[trigger] r@[i]),
            forall|p: nat|
                p < t@.len() && t@[p as int] != '\n' && (#[trigger] self.screen_spec(t@, p)) is Some
                    ==> exists|i: int|
                    0 <= i < r@.len() && (#[trigger] r@[i]) == (
                        cell_x(self.screen_spec(t@, p)) as usize,
                        cell_y(self.screen_spec(t@, p)) as usize,
                        t@[p as int],
                    ),
    {
        let w = self.eff_width();
        let top = find_line_start(t, self.top_line);
        proof {
            lemma_line_start_bounds(t@, self.top_line as nat);
        }
        let a = place_at(t, w, top);
        let height = self.height as usize;
        let width = self.width as usize;
        let left = self.left_column;
        let n = t.len();
        let mut r: Vec<(usize, usize, char)> = Vec::new();
        let ghost mut ps: Seq<nat> = Seq::empty();
        let mut q = top;
        let mut line = a.0;
        let mut row = a.1;
        let mut col = a.2;
        while q < n && row - a.1 < height
            invariant
                top <= q <= n == t@.len(),
                top == self.top_spec(t@),
                w == self.wrap_width(),
                height == self.height_spec(),
                width == self.width_spec(),
                left == self.left_spec(),
                (a.0 as nat, a.1 as nat, a.2 as nat) == place(t@, w as nat, top as nat),
                (line as nat, row as nat, col as nat) == place(t@, w as nat, q as nat),
                a.1 <= row,
                ps.len() == r@.len(),
                forall|i: int|
                    0 <= i < r@.len() ==> top <= #[trigger] ps[i] < q && t@[ps[i] as int] != '\n'
                        && self.screen_spec(t@, ps[i]) == Some((r@[i].0 as nat, r@[i].1 as nat))
                        && r@[i].2 == t@[ps[i] as int],
                forall|p: nat|
                    top <= p < q && t@[p as int] != '\n' && (#[trigger] self.screen_spec(t@, p)) is Some
                        ==> exists|i: int| 0 <= i < r@.len() && ps[i] == p,
            decreases n - q,
        {
            proof {
                lemma_place_bounds(t@, w as nat, q as nat);
            }
            let c = t[q];
            let ghost ps0 = ps;
            let ghost r0 = r@;
            if c != '\n' && left <= col && col - left < width {
                r.push((col - left, row - a.1, c));
                proof {
                    ps = ps.push(q as nat);
                    assert(self.screen_spec(t@, q as nat) == Some(((col - left) as nat, (row - a.1) as nat)));
                }
            }
            proof {
                assert forall|p: nat|
                    top <= p < q + 1 && t@[p as int] != '\n' && (#[trigger] self.screen_spec(t@, p)) is Some
                        implies exists|i: int| 0 <= i < r@.len() && ps[i] == p by {
                    if p == q {
                        assert(ps[ps.len() - 1] == p);
                    } else {
                        let i = choose|i: int| 0 <= i < r0.len() && ps0[i] == p;
                        assert(ps[i] == p);
                    }
                }
            }
            if c == '\n' {
                line = line + 1;
                row = row + 1;
                col = 0;
            } else if w > 0 && col + 1 >= w {
                row = row + 1;
                col = 0;
            } else {
                col = col + 1;
            }
            q = q + 1;
        }
        proof {
            assert forall|p: nat|
                p < t@.len() && t@[p as int] != '\n' && (#[trigger] self.screen_spec(t@, p)) is Some
                    implies exists|i: int|
                    0 <= i < r@.len() && (#[trigger] r@[i]) == (
                        cell_x(self.screen_spec(t@, p)) as usize,
                        cell_y(self.screen_spec(t@, p)) as usize,
                        t@[p as int],
                    ) by {
                if p >= q {
                    if p > q {
                        lemma_place_mono(t@, w as nat, q as nat, p);
                    }
                } else {
                    let i = choose|i: int| 0 <= i < r@.len() && ps[i] == p;
                    assert(r@[i] == (
                        cell_x(self.screen_spec(t@, p)) as usize,
                        cell_y(self.screen_spec(t@, p)) as usize,
                        t@[p as int],
                    ));
                }
            }
            assert forall|i: int| 0 <= i < r@.len() implies self.shows(t@, #[trigger] r@[i]) by {
                let p = ps[i];
                assert(self.screen_spec(t@, p) == Some((r@[i].0 as nat, r@[i].1 as nat)));
            }
        }
        r
    }

    /// Two positions shown on the screen are shown in different cells.
    pub proof fn lemma_screen_injective(&self, t: Seq<char>, p: nat, q: nat)
        requires
            self.screen_spec(t, p) is Some,
            self.screen_spec(t, p) == self.screen_spec(t, q),
        ensures
            p == q,
    {
        let w = self.wrap_width();
        if p < q {
            lemma_place_mono(t, w, p, q);
        } else if q < p {
            lemma_place_mono(t, w, q, p);
        }
    }

    /// While wrapping, when position `p` is on the screen, so is the first
    /// character of its line.
    pub proof fn lemma_line_start_shown(&self, t: Seq<char>, p: nat)
        requires
            self.wf(),
            self.wrap_spec(),
            self.screen_spec(t, p) is Some,
        ensures
            self.screen_spec(t, line_start(t, place(t, self.wrap_width(), p).0)) is Some,
    {
        let w = self.wrap_width();
        let top = self.top_spec(t);
        let ls = line_start(t, place(t, w, p).0);
        lemma_start_before(t, w, self.top_line_spec(), p);
        lemma_start_of_line(t, w, p);
        lemma_line_start_col(t, w, place(t, w, p).0);
        if ls < p {
            lemma_place_mono(t, w, ls, p);
        }
        if top < ls {
            lemma_place_mono(t, w, top, ls);
        }
    }
}

} // verus!
