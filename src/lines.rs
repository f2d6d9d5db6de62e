use vstd::prelude::*;

verus! {

/// Where the position after a character lands, given where the position
/// before it stands as (line, row, column): a line break starts a new line
/// and row; with a wrap width `w > 0`, a row holds at most `w` positions.
pub open spec fn step(pl: (nat, nat, nat), c: char, w: nat) -> (nat, nat, nat) {
    if c == '\n' {
        (pl.0 + 1, pl.1 + 1, 0)
    } else if w > 0 && pl.2 + 1 >= w {
        (pl.0, pl.1 + 1, 0)
    } else {
        (pl.0, pl.1, pl.2 + 1)
    }
}

/// The logical line, display row and column of position `p` of `t` (a place
/// before a character or at the end), with wrap width `w` (0: no wrapping).
pub open spec fn place(t: Seq<char>, w: nat, p: nat) -> (nat, nat, nat)
    decreases p,
{
    if p == 0 || p > t.len() {
        (0, 0, 0)
    } else {
        step(place(t, w, (p - 1) as nat), t[p - 1], w)
    }
}

/// `a` comes before `b` on the display: an earlier row, or the same row and
/// an earlier column.
pub open spec fn before(a: (nat, nat, nat), b: (nat, nat, nat)) -> bool {
    a.1 < b.1 || (a.1 == b.1 && a.2 < b.2)
}

/// The first line break at or after `i`, or the end of the text.
pub open spec fn line_end(t: Seq<char>, i: nat) -> nat
    decreases t.len() - i,
{
    if i >= t.len() {
        t.len()
    } else if t[i as int] == '\n' {
        i
    } else {
        line_end(t, i + 1)
    }
}

/// Where line `n` starts; past the last line, where the last line starts.
pub open spec fn line_start(t: Seq<char>, n: nat) -> nat
    decreases n,
{
    if n == 0 {
        0
    } else {
        let s = line_start(t, (n - 1) as nat);
        if line_end(t, s) < t.len() {
            line_end(t, s) + 1
        } else {
            s
        }
    }
}

pub proof fn lemma_line_end_bounds(t: Seq<char>, i: nat)
    requires
        i <= t.len(),
    ensures
        i <= line_end(t, i) <= t.len(),
        line_end(t, i) < t.len() ==> t[line_end(t, i) as int] == '\n',
        forall|k: int| i <= k < line_end(t, i) ==> t[k] != '\n',
    decreases t.len() - i,
{
    if i < t.len() && t[i as int] != '\n' {
        lemma_line_end_bounds(t, i + 1);
    }
}

/// The first line break at or after `i` is `j`, when `j` is a break and none
/// stands between.
pub proof fn lemma_line_end_is(t: Seq<char>, i: nat, j: nat)
    requires
        i <= j < t.len(),
        t[j as int] == '\n',
        forall|k: int| i <= k < j ==> t[k] != '\n',
    ensures
        line_end(t, i) == j,
    decreases j - i,
{
    if i < j {
        lemma_line_end_is(t, i + 1, j);
    }
}

pub proof fn lemma_line_start_bounds(t: Seq<char>, n: nat)
    ensures
        line_start(t, n) <= t.len(),
        line_start(t, n) == 0 || t[line_start(t, n) - 1] == '\n',
    decreases n,
{
    if n > 0 {
        lemma_line_start_bounds(t, (n - 1) as nat);
        lemma_line_end_bounds(t, line_start(t, (n - 1) as nat));
    }
}

pub proof fn lemma_line_start_mono(t: Seq<char>, a: nat, b: nat)
    requires
        a <= b,
    ensures
        line_start(t, a) <= line_start(t, b),
    decreases b - a,
{
    if a < b {
        lemma_line_start_mono(t, a, (b - 1) as nat);
        lemma_line_start_bounds(t, (b - 1) as nat);
        lemma_line_end_bounds(t, line_start(t, (b - 1) as nat));
    }
}

/// Positions after one another stand in order on the display, and their
/// lines do not decrease.
pub proof fn lemma_place_mono(t: Seq<char>, w: nat, p: nat, q: nat)
    requires
        p < q <= t.len(),
    ensures
        before(place(t, w, p), place(t, w, q)),
        place(t, w, p).0 <= place(t, w, q).0,
    decreases q - p,
{
    if p + 1 < q {
        lemma_place_mono(t, w, p, (q - 1) as nat);
    }
}

/// With a wrap width, every column lies inside it.
pub proof fn lemma_col_bound(t: Seq<char>, w: nat, p: nat)
    requires
        w > 0,
    ensures
        place(t, w, p).2 < w,
    decreases p,
{
    if p > 0 && p <= t.len() {
        lemma_col_bound(t, w, (p - 1) as nat);
    }
}

/// The line of position `p` starts at or before it, with no break between.
pub proof fn lemma_start_of_line(t: Seq<char>, w: nat, p: nat)
    requires
        p <= t.len(),
    ensures
        line_start(t, place(t, w, p).0) <= p,
        forall|k: int| line_start(t, place(t, w, p).0) <= k < p ==> t[k] != '\n',
    decreases p,
{
    if p > 0 {
        let q = (p - 1) as nat;
        lemma_start_of_line(t, w, q);
        let n = place(t, w, q).0;
        if t[q as int] == '\n' {
            lemma_line_end_is(t, line_start(t, n), q);
            assert(place(t, w, p).0 == n + 1);
        }
    }
}

/// The place of position `p`.
pub fn place_at(t: &Vec<char>, w: usize, p: usize) -> (r: (usize, usize, usize))
    requires
        p <= t@.len(),
    ensures
        (r.0 as nat, r.1 as nat, r.2 as nat) == place(t@, w as nat, p as nat),
{
    let mut q: usize = 0;
    let mut line: usize = 0;
    let mut row: usize = 0;
    let mut col: usize = 0;
    while q < p
        invariant
            q <= p <= t@.len(),
            (line as nat, row as nat, col as nat) == place(t@, w as nat, q as nat),
            line <= q,
            row <= q,
            col <= q,
        decreases p - q,
    {
        if t[q] == '\n' {
            line = line + 1;
            row = row + 1;
            col = 0;
        } else if w > 0 && col + 1 >= w {
            row = row + 1;
            col = 0;
        } else {
            col = col + 1;
        }
        q = q + 1;
    }
    (line, row, col)
}

/// The first line break at or after `i`, or the end of the text.
pub fn find_line_end(t: &Vec<char>, i: usize) -> (r: usize)
    requires
        i <= t@.len(),
    ensures
        r == line_end(t@, i as nat),
{
    let mut j = i;
    while j < t.len() && t[j] != '\n'
        invariant
            i <= j <= t@.len(),
            line_end(t@, j as nat) == line_end(t@, i as nat),
        decreases t@.len() - j,
    {
        j = j + 1;
    }
    j
}

/// Where line `n` starts; past the last line, where the last line starts.
pub fn find_line_start(t: &Vec<char>, n: usize) -> (r: usize)
    ensures
        r == line_start(t@, n as nat),
{
    let mut k: usize = 0;
    let mut s: usize = 0;
    while k < n
        invariant
            k <= n,
            s == line_start(t@, k as nat),
        decreases n - k,
    {
        proof {
            lemma_line_start_bounds(t@, k as nat);
        }
        let e = find_line_end(t, s);
        proof {
            lemma_line_end_bounds(t@, s as nat);
        }
        if e < t.len() {
            s = e + 1;
        }
        k = k + 1;
    }
    s
}

/// The line of a position does not depend on the wrap width.
pub proof fn lemma_line_indep(t: Seq<char>, w: nat, p: nat)
    ensures
        place(t, w, p).0 == place(t, 0, p).0,
    decreases p,
{
    if p > 0 && p <= t.len() {
        lemma_line_indep(t, w, (p - 1) as nat);
    }
}

} // verus!
