use vstd::prelude::*;

use crate::chunks::Chunk;

verus! {

/// What the store knows of one unit of the document: its character, or the
/// offset in the backing file that it has not been read from yet.
pub enum Cell {
    Known(char),
    Missing(usize),
}

/// The cell of a character that is in memory.
pub open spec fn known_cell(c: char) -> Cell {
    Cell::Known(c)
}

/// The cells of a text that is in memory.
pub open spec fn known(s: Seq<char>) -> Seq<Cell> {
    s.map_values(|c: char| known_cell(c))
}

/// Every cell of `s` is in memory.
pub open spec fn all_known(s: Seq<Cell>) -> bool {
    forall|k: int| 0 <= k < s.len() ==> (#[trigger] s[k]) is Known
}

/// The characters of a sequence of cells; a missing cell reads as a NUL.
pub open spec fn chars_of(s: Seq<Cell>) -> Seq<char> {
    s.map_values(|c: Cell| match c {
        Cell::Known(ch) => ch,
        Cell::Missing(_) => '\0',
    })
}

/// One chunk of the store. An unloaded piece stands for `size` units of the
/// backing file starting at `source`.
struct Piece {
    size: usize,
    data: Vec<char>,
    loaded: bool,
    modified: bool,
    source: usize,
}

impl Piece {
    spec fn wf(&self) -> bool {
        &&& self.size > 0
        &&& self.loaded ==> self.data@.len() == self.size
        &&& !self.loaded ==> self.source + self.size <= usize::MAX
    }

    spec fn cells(&self) -> Seq<Cell> {
        Seq::new(
            self.size as nat,
            |j: int|
                if self.loaded {
                    known_cell(self.data@[j])
                } else {
                    Cell::Missing((self.source + j) as usize)
                },
        )
    }
}

spec fn pieces_wf(ps: Seq<Piece>) -> bool {
    forall|i: int| 0 <= i < ps.len() ==> (#[trigger] ps[i]).wf()
}

spec fn cells_of(ps: Seq<Piece>) -> Seq<Cell>
    decreases ps.len(),
{
    if ps.len() == 0 {
        Seq::empty()
    } else {
        cells_of(ps.drop_last()) + ps.last().cells()
    }
}

spec fn size_sum(ps: Seq<Piece>) -> nat
    decreases ps.len(),
{
    if ps.len() == 0 {
        0
    } else {
        size_sum(ps.drop_last()) + ps.last().size as nat
    }
}

proof fn lemma_cells_len(ps: Seq<Piece>)
    ensures
        cells_of(ps).len() == size_sum(ps),
    decreases ps.len(),
{
    if ps.len() > 0 {
        lemma_cells_len(ps.drop_last());
    }
}

proof fn lemma_cells_concat(a: Seq<Piece>, b: Seq<Piece>)
    ensures
        cells_of(a + b) == cells_of(a) + cells_of(b),
        size_sum(a + b) == size_sum(a) + size_sum(b),
    decreases b.len(),
{
    if b.len() == 0 {
        assert(a + b =~= a);
        assert(cells_of(a) + cells_of(b) =~= cells_of(a));
    } else {
        lemma_cells_concat(a, b.drop_last());
        assert((a + b).drop_last() =~= a + b.drop_last());
        assert((a + b).last() == b.last());
        assert(cells_of(a + b) =~= cells_of(a) + cells_of(b));
    }
}

proof fn lemma_cells_single(p: Piece)
    ensures
        cells_of(seq![p]) == p.cells(),
        size_sum(seq![p]) == p.size,
{
    let s = seq![p];
    assert(s.drop_last() =~= Seq::<Piece>::empty());
    assert(s.last() == p);
    assert(cells_of(s.drop_last()) == Seq::<Cell>::empty());
    assert(size_sum(s.drop_last()) == 0);
    assert(cells_of(s) =~= p.cells());
}

/// The cells and sizes of a run of pieces split at index `i`.
proof fn lemma_cells_split(ps: Seq<Piece>, i: int)
    requires
        0 <= i <= ps.len(),
    ensures
        cells_of(ps) == cells_of(ps.subrange(0, i)) + cells_of(ps.subrange(i, ps.len() as int)),
        size_sum(ps) == size_sum(ps.subrange(0, i)) + size_sum(ps.subrange(i, ps.len() as int)),
        cells_of(ps.subrange(0, i)).len() == size_sum(ps.subrange(0, i)),
        cells_of(ps).len() == size_sum(ps),
{
    assert(ps =~= ps.subrange(0, i) + ps.subrange(i, ps.len() as int));
    lemma_cells_concat(ps.subrange(0, i), ps.subrange(i, ps.len() as int));
    lemma_cells_len(ps.subrange(0, i));
    lemma_cells_len(ps);
}

/// The cells of piece `i` stand in the run at the sum of the sizes before it.
proof fn lemma_cells_at(ps: Seq<Piece>, i: int)
    requires
        0 <= i < ps.len(),
    ensures
        cells_of(ps) == cells_of(ps.subrange(0, i)) + ps[i].cells() + cells_of(
            ps.subrange(i + 1, ps.len() as int),
        ),
        size_sum(ps.subrange(0, i + 1)) == size_sum(ps.subrange(0, i)) + ps[i].size,
        cells_of(ps.subrange(0, i)).len() == size_sum(ps.subrange(0, i)),
        size_sum(ps.subrange(0, i + 1)) <= size_sum(ps),
        cells_of(ps).len() == size_sum(ps),
{
    let pre = ps.subrange(0, i);
    let post = ps.subrange(i + 1, ps.len() as int);
    assert(ps =~= pre + (seq![ps[i]] + post));
    lemma_cells_concat(pre, seq![ps[i]] + post);
    lemma_cells_concat(seq![ps[i]], post);
    lemma_cells_single(ps[i]);
    assert(ps.subrange(0, i + 1) =~= pre + seq![ps[i]]);
    lemma_cells_concat(pre, seq![ps[i]]);
    lemma_cells_len(pre);
    lemma_cells_len(ps);
    lemma_cells_split(ps, i + 1);
}

/// Splits the piece that holds `pos` in its interior, so that a piece boundary
/// stands at `pos`; returns the index of the first piece at or after it.
fn split_pieces(ps: &mut Vec<Piece>, pos: usize) -> (i: usize)
    requires
        pieces_wf(old(ps)@),
        size_sum(old(ps)@) <= usize::MAX,
        pos <= size_sum(old(ps)@),
    ensures
        pieces_wf(final(ps)@),
        cells_of(final(ps)@) == cells_of(old(ps)@),
        size_sum(final(ps)@) == size_sum(old(ps)@),
        i <= final(ps)@.len(),
        size_sum(final(ps)@.subrange(0, i as int)) == pos,
{
    let n = ps.len();
    let mut i: usize = 0;
    let mut off: usize = 0;
    while i < n && ps[i].size <= pos - off
        invariant
            n == ps@.len(),
            i <= n,
            off == size_sum(ps@.subrange(0, i as int)),
            off <= pos,
            pieces_wf(ps@),
            size_sum(ps@) <= usize::MAX,
            pos <= size_sum(ps@),
        decreases n - i,
    {
        proof {
            lemma_cells_at(ps@, i as int);
        }
        off = off + ps[i].size;
        i = i + 1;
    }
    if i == n {
        proof {
            assert(ps@.subrange(0, n as int) =~= ps@);
        }
        return i;
    }
    proof {
        lemma_cells_at(ps@, i as int);
    }
    if off == pos {
        return i;
    }
    let ghost old_ps = ps@;
    let k = pos - off;
    let p = ps.remove(i);
    let (first, second) = if p.loaded {
        let mut head = p.data;
        let tail = head.split_off(k);
        (
            Piece { size: k, data: head, loaded: true, modified: p.modified, source: p.source },
            Piece {
                size: p.size - k,
                data: tail,
                loaded: true,
                modified: p.modified,
                source: p.source,
            },
        )
    } else {
        (
            Piece { size: k, data: Vec::new(), loaded: false, modified: false, source: p.source },
            Piece {
                size: p.size - k,
                data: Vec::new(),
                loaded: false,
                modified: false,
                source: p.source + k,
            },
        )
    };
    ps.insert(i, second);
    ps.insert(i, first);
    proof {
        let pre = old_ps.subrange(0, i as int);
        let post = old_ps.subrange(i + 1, old_ps.len() as int);
        assert(ps@ =~= pre + (seq![first, second] + post));
        assert(seq![first, second] =~= seq![first] + seq![second]);
        lemma_cells_concat(pre, seq![first, second] + post);
        lemma_cells_concat(seq![first, second], post);
        lemma_cells_concat(seq![first], seq![second]);
        lemma_cells_single(first);
        lemma_cells_single(second);
        assert(first.cells() + second.cells() =~= old_ps[i as int].cells());
        assert(ps@.subrange(0, i + 1) =~= pre + seq![first]);
        lemma_cells_concat(pre, seq![first]);
        assert forall|m: int| 0 <= m < ps@.len() implies (#[trigger] ps@[m]).wf() by {
            if m > i + 1 {
                assert(ps@[m] == old_ps[m - 1]);
            } else if m < i {
                assert(ps@[m] == old_ps[m]);
            }
        }
        lemma_cells_len(ps@);
        lemma_cells_len(old_ps);
    }
    i + 1
}

/// Cuts the run at `start` and `end`: keeps the pieces before `start` in `ps`
/// and returns those after `end`.
fn cut_pieces(ps: &mut Vec<Piece>, start: usize, end: usize) -> (tail: Vec<Piece>)
    requires
        pieces_wf(old(ps)@),
        size_sum(old(ps)@) <= usize::MAX,
        start <= end <= size_sum(old(ps)@),
    ensures
        pieces_wf(final(ps)@),
        pieces_wf(tail@),
        cells_of(final(ps)@) == cells_of(old(ps)@).subrange(0, start as int),
        cells_of(tail@) == cells_of(old(ps)@).subrange(end as int, cells_of(old(ps)@).len() as int),
        size_sum(final(ps)@) == start,
        size_sum(tail@) == size_sum(old(ps)@) - end,
{
    let ghost c0 = cells_of(ps@);
    proof {
        lemma_cells_len(ps@);
    }
    let i = split_pieces(ps, start);
    let ghost ps1 = ps@;
    proof {
        lemma_cells_split(ps1, i as int);
    }
    let mut rest = ps.split_off(i);
    proof {
        assert(c0 =~= cells_of(ps@) + cells_of(rest@));
        assert(cells_of(ps@) =~= c0.subrange(0, start as int));
        assert(cells_of(rest@) =~= c0.subrange(start as int, c0.len() as int));
        assert forall|m: int| 0 <= m < rest@.len() implies (#[trigger] rest@[m]).wf() by {
            assert(rest@[m] == ps1[i + m]);
        }
    }
    let ghost r0 = rest@;
    let j = split_pieces(&mut rest, end - start);
    let ghost r1 = rest@;
    proof {
        lemma_cells_split(r1, j as int);
    }
    let tail = rest.split_off(j);
    proof {
        assert(cells_of(r1) =~= cells_of(rest@) + cells_of(tail@));
        assert(cells_of(tail@) =~= c0.subrange(end as int, c0.len() as int));
        assert forall|m: int| 0 <= m < tail@.len() implies (#[trigger] tail@[m]).wf() by {
            assert(tail@[m] == r1[j + m]);
        }
    }
    tail
}

/// Appends `tail` to `ps`.
fn join_pieces(ps: &mut Vec<Piece>, tail: Vec<Piece>)
    requires
        pieces_wf(old(ps)@),
        pieces_wf(tail@),
    ensures
        pieces_wf(final(ps)@),
        cells_of(final(ps)@) == cells_of(old(ps)@) + cells_of(tail@),
        size_sum(final(ps)@) == size_sum(old(ps)@) + size_sum(tail@),
{
    let ghost a = ps@;
    let mut tail = tail;
    let ghost b = tail@;
    ps.append(&mut tail);
    proof {
        lemma_cells_concat(a, b);
        assert forall|m: int| 0 <= m < ps@.len() implies (#[trigger] ps@[m]).wf() by {
            if m >= a.len() {
                assert(ps@[m] == b[m - a.len()]);
            } else {
                assert(ps@[m] == a[m]);
            }
        }
    }
}

/// A document's content as an ordered, gap-free run of chunks, each in memory
/// or known only by its place in the backing file.
pub struct TextBuffer {
    pieces: Vec<Piece>,
    total: usize,
    modified: bool,
}

impl TextBuffer {
    pub closed spec fn wf(&self) -> bool {
        &&& pieces_wf(self.pieces@)
        &&& self.total == size_sum(self.pieces@)
    }

    /// The document, one cell per unit.
    pub closed spec fn cells(&self) -> Seq<Cell> {
        cells_of(self.pieces@)
    }

    pub closed spec fn chunk_count_spec(&self) -> nat {
        self.pieces@.len()
    }

    pub closed spec fn modified_spec(&self) -> bool {
        self.modified
    }

    /// The characters of the document, where all of it is in memory.
    pub open spec fn text(&self) -> Seq<char> {
        chars_of(self.cells())
    }

    pub open spec fn loaded_spec(&self) -> bool {
        all_known(self.cells())
    }

    proof fn lemma_len(&self)
        requires
            self.wf(),
        ensures
            self.cells().len() == self.total,
    {
        lemma_cells_len(self.pieces@);
    }

    /// An empty document.
    pub fn new() -> (r: TextBuffer)
        ensures
            r.wf(),
            r.cells() == Seq::<Cell>::empty(),
            !r.modified_spec(),
    {
        TextBuffer { pieces: Vec::new(), total: 0, modified: false }
    }

    /// A document whose characters are all in memory, as read from its file.
    pub fn from_chars(text: Vec<char>) -> (r: TextBuffer)
        ensures
            r.wf(),
            r.cells() == known(text@),
            !r.modified_spec(),
    {
        let n = text.len();
        if n == 0 {
            return TextBuffer::new();
        }
        let p = Piece { size: n, data: text, loaded: true, modified: false, source: 0 };
        let mut pieces = Vec::new();
        pieces.push(p);
        proof {
            lemma_cells_single(p);
            assert(pieces@ =~= seq![p]);
            assert(p.cells() =~= known(text@));
        }
        TextBuffer { pieces, total: n, modified: false }
    }

    /// A document of `size` units of which none has been read yet.
    pub fn from_size(size: usize) -> (r: TextBuffer)
        ensures
            r.wf(),
            r.cells() == Seq::new(size as nat, |k: int| Cell::Missing(k as usize)),
            !r.modified_spec(),
    {
        if size == 0 {
            let r = TextBuffer::new();
            proof {
                assert(r.cells() =~= Seq::new(size as nat, |k: int| Cell::Missing(k as usize)));
            }
            return r;
        }
        let p = Piece { size, data: Vec::new(), loaded: false, modified: false, source: 0 };
        let mut pieces = Vec::new();
        pieces.push(p);
        proof {
            lemma_cells_single(p);
            assert(pieces@ =~= seq![p]);
            assert(p.cells() =~= Seq::new(size as nat, |k: int| Cell::Missing(k as usize)));
        }
        TextBuffer { pieces, total: size, modified: false }
    }

    /// The number of units in the document.
    pub fn len(&self) -> (r: usize)
        requires
            self.wf(),
        ensures
            r == self.cells().len(),
    {
        proof {
            self.lemma_len();
        }
        self.total
    }

    /// Whether the document differs from what was last read or saved.
    pub fn is_modified(&self) -> (r: bool)
        ensures
            r == self.modified_spec(),
    {
        self.modified
    }

    /// Finds the piece that holds unit `pos` and the offset where it starts.
    fn locate(&self, pos: usize) -> (r: (usize, usize))
        requires
            self.wf(),
            pos < self.cells().len(),
        ensures
            r.0 < self.pieces@.len(),
            r.1 == size_sum(self.pieces@.subrange(0, r.0 as int)),
            r.1 <= pos < r.1 + self.pieces@[r.0 as int].size,
    {
        proof {
            self.lemma_len();
        }
        let n = self.pieces.len();
        let mut i: usize = 0;
        let mut off: usize = 0;
        while i < n && self.pieces[i].size <= pos - off
            invariant
                self.wf(),
                n == self.pieces@.len(),
                i <= n,
                off == size_sum(self.pieces@.subrange(0, i as int)),
                off <= pos,
                pos < self.total,
            decreases n - i,
        {
            proof {
                lemma_cells_at(self.pieces@, i as int);
            }
            off = off + self.pieces[i].size;
            i = i + 1;
        }
        if i == n {
            proof {
                assert(self.pieces@.subrange(0, n as int) =~= self.pieces@);
            }
        }
        (i, off)
    }

    /// The character at `pos`, which must be in memory.
    pub fn char_at(&self, pos: usize) -> (c: char)
        requires
            self.wf(),
            pos < self.cells().len(),
            self.cells()[pos as int] is Known,
        ensures
            self.cells()[pos as int] == known_cell(c),
            self.text()[pos as int] == c,
    {
        let (i, off) = self.locate(pos);
        proof {
            lemma_cells_at(self.pieces@, i as int);
            assert(self.pieces@[i as int].wf());
            assert(self.cells()[pos as int] == self.pieces@[i as int].cells()[pos - off]);
        }
        let k = pos - off;
        self.pieces[i].data[k]
    }

    /// The characters of `[start, end)`, which must all be in memory.
    pub fn slice(&self, start: usize, end: usize) -> (r: Vec<char>)
        requires
            self.wf(),
            start <= end <= self.cells().len(),
            all_known(self.cells().subrange(start as int, end as int)),
        ensures
            known(r@) == self.cells().subrange(start as int, end as int),
            r@ == self.text().subrange(start as int, end as int),
    {
        let mut r: Vec<char> = Vec::new();
        let mut pos = start;
        while pos < end
            invariant
                self.wf(),
                start <= pos <= end <= self.cells().len(),
                all_known(self.cells().subrange(start as int, end as int)),
                known(r@) == self.cells().subrange(start as int, pos as int),
                r@ == self.text().subrange(start as int, pos as int),
            decreases end - pos,
        {
            assert(self.cells().subrange(start as int, end as int)[pos - start] is Known);
            let c = self.char_at(pos);
            r.push(c);
            pos = pos + 1;
            assert(known(r@) =~= self.cells().subrange(start as int, pos as int));
            assert(r@ =~= self.text().subrange(start as int, pos as int));
        }
        r
    }

    /// The first run of units in `[start, end)` that is not in memory, as its
    /// offset, its length and its offset in the backing file.
    pub fn missing_in(&self, start: usize, end: usize) -> (r: Option<(usize, usize, usize)>)
        requires
            self.wf(),
            start <= end <= self.cells().len(),
        ensures
            r is None ==> all_known(self.cells().subrange(start as int, end as int)),
            r matches Some((p, n, src)) ==> {
                &&& start <= p
                &&& 0 < n
                &&& p + n <= end
                &&& src + n <= usize::MAX
                &&& all_known(self.cells().subrange(start as int, p as int))
                &&& forall|t: int|
                    0 <= t < n ==> #[trigger] self.cells()[p + t] == Cell::Missing(
                        (src + t) as usize,
                    )
            },
    {
        proof {
            self.lemma_len();
        }
        if start == end {
            proof {
                assert(self.cells().subrange(start as int, end as int) =~= Seq::<Cell>::empty());
            }
            return None;
        }
        let n = self.pieces.len();
        let mut i: usize = 0;
        let mut off: usize = 0;
        while i < n && off < end
            invariant
                self.wf(),
                n == self.pieces@.len(),
                i <= n,
                off == size_sum(self.pieces@.subrange(0, i as int)),
                self.total == self.cells().len(),
                start < end <= self.total,
                off <= self.total,
                forall|k: int| start <= k < off && k < end ==> (#[trigger] self.cells()[k]) is Known,
            decreases n - i,
        {
            proof {
                lemma_cells_at(self.pieces@, i as int);
                assert(self.pieces@[i as int].wf());
            }
            let size = self.pieces[i].size;
            let next = off + size;
            if !self.pieces[i].loaded && start < next {
                let lo = if start > off { start } else { off };
                let hi = if end < next { end } else { next };
                let src = self.pieces[i].source + (lo - off);
                proof {
                    assert(all_known(self.cells().subrange(start as int, lo as int)));
                    assert forall|t: int| 0 <= t < hi - lo implies #[trigger] self.cells()[lo + t]
                        == Cell::Missing((src + t) as usize) by {
                        assert(self.cells()[lo + t] == self.pieces@[i as int].cells()[lo + t - off]);
                    }
                }
                return Some((lo, hi - lo, src));
            }
            proof {
                assert forall|k: int| start <= k < next && k < end implies (#[trigger] self.cells()[k]) is Known by {
                    if k >= off {
                        assert(self.cells()[k] == self.pieces@[i as int].cells()[k - off]);
                    }
                }
            }
            off = next;
            i = i + 1;
        }
        proof {
            if i == n {
                assert(self.pieces@.subrange(0, n as int) =~= self.pieces@);
            }
        }
        None
    }

    /// Whether every unit of the document is in memory.
    pub fn is_loaded(&self) -> (r: bool)
        requires
            self.wf(),
        ensures
            r == self.loaded_spec(),
    {
        proof {
            self.lemma_len();
        }
        let m = self.missing_in(0, self.total);
        proof {
            assert(self.cells().subrange(0, self.total as int) =~= self.cells());
            if let Some((p, n, src)) = m {
                assert(self.cells()[p + 0] == Cell::Missing((src + 0) as usize));
            }
        }
        m.is_none()
    }

    /// The whole document, which must be in memory.
    pub fn contents(&self) -> (r: Vec<char>)
        requires
            self.wf(),
            self.loaded_spec(),
        ensures
            known(r@) == self.cells(),
            r@ == self.text(),
    {
        proof {
            self.lemma_len();
            assert(self.cells().subrange(0, self.total as int) =~= self.cells());
            assert(self.text().subrange(0, self.total as int) =~= self.text());
        }
        self.slice(0, self.total)
    }

    /// The whole document as a string, which must be in memory.
    pub fn to_string(&self) -> (r: String)
        requires
            self.wf(),
            self.loaded_spec(),
        ensures
            r@ == self.text(),
    {
        let v = self.contents();
        crate::text::chars_to_string(&v)
    }

    /// Puts the characters read from the backing file in place of the missing
    /// units `[pos, pos + data.len())`.
    pub fn fill(&mut self, pos: usize, data: Vec<char>)
        requires
            old(self).wf(),
            0 < data@.len(),
            pos + data@.len() <= old(self).cells().len(),
            forall|t: int| 0 <= t < data@.len() ==> (#[trigger] old(self).cells()[pos + t]) is Missing,
        ensures
            final(self).wf(),
            final(self).cells() == old(self).cells().subrange(0, pos as int) + known(data@)
                + old(self).cells().subrange(pos + data@.len(), old(self).cells().len() as int),
            final(self).modified_spec() == old(self).modified_spec(),
    {
        proof {
            self.lemma_len();
        }
        let n = data.len();
        let tail = cut_pieces(&mut self.pieces, pos, pos + n);
        let p = Piece { size: n, data, loaded: true, modified: false, source: 0 };
        let ghost pre = self.pieces@;
        self.pieces.push(p);
        proof {
            assert(self.pieces@ =~= pre + seq![p]);
            lemma_cells_concat(pre, seq![p]);
            lemma_cells_single(p);
            assert(p.cells() =~= known(data@));
            assert forall|m: int| 0 <= m < self.pieces@.len() implies (#[trigger] self.pieces@[m]).wf() by {
                if m < pre.len() {
                    assert(self.pieces@[m] == pre[m]);
                }
            }
        }
        join_pieces(&mut self.pieces, tail);
    }

    /// Inserts `text` before unit `pos`.
    pub fn insert(&mut self, pos: usize, text: Vec<char>)
        requires
            old(self).wf(),
            pos <= old(self).cells().len(),
            old(self).cells().len() + text@.len() <= usize::MAX,
        ensures
            final(self).wf(),
            final(self).cells() == old(self).cells().subrange(0, pos as int) + known(text@)
                + old(self).cells().subrange(pos as int, old(self).cells().len() as int),
            final(self).modified_spec() == (old(self).modified_spec() || text@.len() > 0),
    {
        proof {
            self.lemma_len();
        }
        let n = text.len();
        if n == 0 {
            proof {
                assert(self.cells() =~= self.cells().subrange(0, pos as int) + known(text@)
                    + self.cells().subrange(pos as int, self.cells().len() as int));
            }
            return;
        }
        let ghost c0 = self.cells();
        let ghost t0 = text@;
        let tail = cut_pieces(&mut self.pieces, pos, pos);
        let m = self.pieces.len();
        let mut text = text;
        if m > 0 && self.pieces[m - 1].loaded {
            let ghost pre = self.pieces@;
            let mut last = self.pieces.pop().unwrap();
            let ghost last0 = last;
            proof {
                assert(last0 == pre[m - 1]);
                assert(pre[m - 1].wf());
                assert(self.pieces@ =~= pre.drop_last());
            }
            let ghost d0 = last.data@;
            last.data.append(&mut text);
            last.size = last.size + n;
            last.modified = true;
            self.pieces.push(last);
            proof {
                assert(self.pieces@ =~= pre.drop_last() + seq![last]);
                lemma_cells_concat(pre.drop_last(), seq![last]);
                lemma_cells_single(last);
                assert(last.cells() =~= pre.last().cells() + known(t0));
                assert(pre =~= pre.drop_last() + seq![pre.last()]);
                lemma_cells_concat(pre.drop_last(), seq![pre.last()]);
                lemma_cells_single(pre.last());
                assert forall|k: int| 0 <= k < self.pieces@.len() implies (#[trigger] self.pieces@[k]).wf() by {
                    if k < m - 1 {
                        assert(self.pieces@[k] == pre[k]);
                    }
                }
            }
        } else {
            let ghost pre = self.pieces@;
            let p = Piece { size: n, data: text, loaded: true, modified: true, source: 0 };
            self.pieces.push(p);
            proof {
                assert(self.pieces@ =~= pre + seq![p]);
                lemma_cells_concat(pre, seq![p]);
                lemma_cells_single(p);
                assert(p.cells() =~= known(t0));
                assert forall|k: int| 0 <= k < self.pieces@.len() implies (#[trigger] self.pieces@[k]).wf() by {
                    if k < pre.len() {
                        assert(self.pieces@[k] == pre[k]);
                    }
                }
            }
        }
        join_pieces(&mut self.pieces, tail);
        self.total = self.total + n;
        self.modified = true;
        proof {
            assert(self.cells() =~= c0.subrange(0, pos as int) + known(t0) + c0.subrange(
                pos as int,
                c0.len() as int,
            ));
            lemma_cells_len(self.pieces@);
        }
    }

    /// Removes the units `[start, end)`.
    pub fn delete(&mut self, start: usize, end: usize)
        requires
            old(self).wf(),
            start <= end <= old(self).cells().len(),
        ensures
            final(self).wf(),
            final(self).cells() == old(self).cells().subrange(0, start as int)
                + old(self).cells().subrange(end as int, old(self).cells().len() as int),
            final(self).modified_spec() == (old(self).modified_spec() || start < end),
    {
        proof {
            self.lemma_len();
        }
        if start == end {
            proof {
                assert(self.cells() =~= self.cells().subrange(0, start as int)
                    + self.cells().subrange(end as int, self.cells().len() as int));
            }
            return;
        }
        let tail = cut_pieces(&mut self.pieces, start, end);
        join_pieces(&mut self.pieces, tail);
        self.total = self.total - (end - start);
        self.modified = true;
    }

    /// Clears the modified flag of the document and of every chunk, as after a save.
    pub fn mark_saved(&mut self)
        requires
            old(self).wf(),
        ensures
            final(self).wf(),
            final(self).cells() == old(self).cells(),
            !final(self).modified_spec(),
    {
        let n = self.pieces.len();
        let mut i: usize = 0;
        let ghost ps0 = self.pieces@;
        while i < n
            invariant
                n == self.pieces@.len() == ps0.len(),
                i <= n,
                pieces_wf(self.pieces@),
                self.total == size_sum(ps0),
                forall|k: int| 0 <= k < n ==> (#[trigger] self.pieces@[k]).cells() == ps0[k].cells()
                    && self.pieces@[k].size == ps0[k].size,
                cells_of(ps0) == old(self).cells(),
            decreases n - i,
        {
            let ghost before = self.pieces@;
            let mut p = self.pieces.remove(i);
            p.modified = false;
            self.pieces.insert(i, p);
            proof {
                assert(before[i as int].wf());
                assert forall|k: int| 0 <= k < n implies (#[trigger] self.pieces@[k]).wf() by {
                    if k != i {
                        assert(self.pieces@[k] == before[k]);
                    }
                }
                assert(self.pieces@[i as int].cells() =~= before[i as int].cells());
            }
            i = i + 1;
        }
        self.modified = false;
        proof {
            lemma_same_cells(self.pieces@, ps0);
        }
    }

    /// The number of chunks.
    pub fn chunk_count(&self) -> (r: usize)
        ensures
            r == self.chunk_count_spec(),
    {
        self.pieces.len()
    }

    /// The chunks in order of offset: each starts where the one before ends,
    /// and the last ends at the document's length.
    pub fn chunks(&self) -> (r: Vec<Chunk<'_>>)
        requires
            self.wf(),
        ensures
            r@.len() == self.chunk_count_spec(),
            r@.len() > 0 ==> r@[0].offset() == 0,
            r@.len() > 0 ==> r@.last().offset() + r@.last().size() == self.cells().len(),
            r@.len() == 0 ==> self.cells().len() == 0,
            forall|i: int|
                0 <= i < r@.len() - 1 ==> #[trigger] r@[i + 1].offset() == r@[i].offset() + r@[i].size(),
            forall|i: int| 0 <= i < r@.len() ==> (#[trigger] r@[i]).size() > 0,
            forall|i: int, j: int|
                0 <= i < r@.len() && 0 <= j < r@[i].size() ==> #[trigger] chunk_holds(r@[i], self.cells(), j),
    {
        proof {
            self.lemma_len();
        }
        let n = self.pieces.len();
        let mut r: Vec<Chunk<'_>> = Vec::new();
        let mut i: usize = 0;
        let mut off: usize = 0;
        while i < n
            invariant
                self.wf(),
                n == self.pieces@.len(),
                i <= n,
                r@.len() == i,
                off == size_sum(self.pieces@.subrange(0, i as int)),
                self.total == self.cells().len(),
                forall|m: int| 0 <= m < i ==> (#[trigger] r@[m]).offset() == size_sum(self.pieces@.subrange(0, m)),
                forall|m: int| 0 <= m < i ==> (#[trigger] r@[m]).size() == self.pieces@[m].size,
                forall|m: int, j: int|
                    0 <= m < i && 0 <= j < r@[m].size() ==> #[trigger] chunk_holds(r@[m], self.cells(), j),
            decreases n - i,
        {
            proof {
                lemma_cells_at(self.pieces@, i as int);
                assert(self.pieces@[i as int].wf());
            }
            let size = self.pieces[i].size;
            let c = if self.pieces[i].loaded {
                Chunk::loaded(off as u64, self.pieces[i].data.as_slice(), self.pieces[i].modified)
            } else {
                Chunk::unloaded(off as u64, size as u64)
            };
            proof {
                assert forall|j: int| 0 <= j < c.size() implies chunk_holds(c, self.cells(), j) by {
                    assert(self.cells()[off + j] == self.pieces@[i as int].cells()[j]);
                }
            }
            r.push(c);
            off = off + size;
            i = i + 1;
        }
        proof {
            assert(self.pieces@.subrange(0, n as int) =~= self.pieces@);
            assert forall|m: int| 0 <= m < r@.len() - 1 implies #[trigger] r@[m + 1].offset() == r@[m].offset() + r@[m].size() by {
                lemma_cells_at(self.pieces@, m);
            }
            if n > 0 {
                lemma_cells_at(self.pieces@, n - 1);
            }
        }
        r
    }
}

/// What chunk `c` says of unit `j` of itself: a loaded chunk holds its
/// character, an unloaded one a missing unit.
pub open spec fn chunk_holds(c: Chunk<'_>, cells: Seq<Cell>, j: int) -> bool {
    match c {
        Chunk::Loaded(l) => cells[l.offset + j] == known_cell(l.data@[j]),
        Chunk::Unloaded(u) => cells[u.offset + j] is Missing,
    }
}

proof fn lemma_same_cells(a: Seq<Piece>, b: Seq<Piece>)
    requires
        a.len() == b.len(),
        forall|k: int| 0 <= k < a.len() ==> (#[trigger] a[k]).cells() == b[k].cells() && a[k].size == b[k].size,
    ensures
        cells_of(a) == cells_of(b),
        size_sum(a) == size_sum(b),
    decreases a.len(),
{
    if a.len() > 0 {
        lemma_same_cells(a.drop_last(), b.drop_last());
        assert(a.last() == a[a.len() - 1]);
    }
}

/// A text in memory reads back as itself.
pub proof fn lemma_known_chars(s: Seq<char>)
    ensures
        chars_of(known(s)) == s,
        all_known(known(s)),
{
    assert(chars_of(known(s)) =~= s);
}

/// Cells that are all in memory are the cells of their characters.
pub proof fn lemma_cells_known(c: Seq<Cell>)
    requires
        all_known(c),
    ensures
        known(chars_of(c)) == c,
{
    assert forall|k: int| 0 <= k < c.len() implies #[trigger] known(chars_of(c))[k] == c[k] by {
        assert(c[k] is Known);
    }
    assert(known(chars_of(c)) =~= c);
}

} // verus!
