//! The candy bar: occupancy model and the chomp move.
//!
//! A board is stored as the widths of its rows: entry `r` of `rows` is the
//! number of occupied cells in row `r`.  Cell `(r, c)` is occupied exactly
//! when `r` is a listed row and `c` lies below that row's width.  A
//! well-formed board is a staircase: every listed row is non-empty and the
//! widths never grow from one row to the next, so the occupied set is
//! closed downward and leftward.

use vstd::prelude::*;
use vstd::string::StringExecFns;

verus! {

/// Total number of cells in a sequence of row widths.
pub open spec fn sum(rows: Seq<u64>) -> nat
    decreases rows.len(),
{
    if rows.len() == 0 {
        0
    } else {
        (sum(rows.drop_last()) + rows.last()) as nat
    }
}

/// The smaller of two widths.
pub open spec fn min64(a: u64, b: u64) -> u64 {
    if a <= b {
        a
    } else {
        b
    }
}

/// Cell `(r, c)` is occupied on a board with the given row widths.
pub open spec fn occ(rows: Seq<u64>, r: int, c: int) -> bool {
    &&& 0 <= r < rows.len()
    &&& 0 <= c < rows[r]
}

/// The staircase shape: every listed row is non-empty and widths never
/// increase from one row to the next.
pub open spec fn staircase(rows: Seq<u64>) -> bool {
    &&& forall|r: int| 0 <= r < rows.len() ==> rows[r] > 0
    &&& forall|r: int| 0 < r < rows.len() ==> #[trigger] rows[r] <= rows[r - 1]
}

/// Row widths after chomping at pivot `(row0, col0)`: rows above the pivot
/// keep their width, the pivot's row and every row below it lose every
/// cell from column `col0` rightward.  A pivot in column 0 removes whole
/// rows.
pub open spec fn spec_chomp(rows: Seq<u64>, row0: int, col0: int) -> Seq<u64> {
    if col0 <= 0 {
        rows.take(row0)
    } else {
        Seq::new(
            rows.len(),
            |r: int|
                if r < row0 {
                    rows[r]
                } else {
                    min64(rows[r], col0 as u64)
                },
        )
    }
}

/// The occupied cells of a board, as the set of their coordinates.
pub open spec fn cell_set(rows: Seq<u64>) -> Set<(int, int)> {
    Set::new(|p: (int, int)| occ(rows, p.0, p.1))
}

/// Row widths of the full rectangle: `height` rows of width `width`,
/// none at all when the width is zero.
pub open spec fn spec_full_rows(width: u64, height: u64) -> Seq<u64> {
    if width == 0 {
        Seq::empty()
    } else {
        Seq::new(height as nat, |i: int| width)
    }
}

/// The characters of one rendered row of width `w`: a marker per
/// occupied cell — the poison marker first on the first row — then a
/// line break.
pub open spec fn spec_line(w: u64, first: bool) -> Seq<char> {
    Seq::new(
        w as nat + 1,
        |i: int|
            if i == w {
                '\n'
            } else if first && i == 0 {
                'x'
            } else {
                'o'
            },
    )
}

/// The rendered text of the rows from `r` on.
pub open spec fn spec_render_from(rows: Seq<u64>, r: int) -> Seq<char>
    decreases rows.len() - r,
{
    if r < 0 || r >= rows.len() {
        Seq::empty()
    } else {
        spec_line(rows[r], r == 0) + spec_render_from(rows, r + 1)
    }
}

/// The rendered text of a board: one line per row, top row first.
pub open spec fn spec_render(rows: Seq<u64>) -> Seq<char> {
    spec_render_from(rows, 0)
}

/// A candy bar to be chomped.
pub struct Bar {
    rows: Vec<u64>,
}

impl Bar {
    /// The row widths, the abstract state every contract speaks of.
    pub closed spec fn rows_view(self) -> Seq<u64> {
        self.rows@
    }

    /// Cell `(r, c)` is occupied.
    pub open spec fn occupied(self, r: int, c: int) -> bool {
        occ(self.rows_view(), r, c)
    }

    /// Number of occupied cells.
    pub open spec fn total(self) -> nat {
        sum(self.rows_view())
    }

    /// Well-formed: the staircase shape, with a cell count that fits in
    /// `u64`.
    pub open spec fn wf(self) -> bool {
        &&& staircase(self.rows_view())
        &&& self.total() <= u64::MAX
    }

    /// Create a new `Bar` with the given `width` and `height`: the full
    /// rectangle, every cell occupied.
    pub fn new(width: u64, height: u64) -> (bar: Bar)
        requires
            width * height <= u64::MAX,
        ensures
            bar.wf(),
            bar.rows_view() == spec_full_rows(width, height),
            bar.total() == width * height,
            forall|r: int, c: int|
                bar.occupied(r, c) <==> (0 <= r < height && 0 <= c < width),
    {
        let mut rows: Vec<u64> = Vec::new();
        if width > 0 {
            let mut r: u64 = 0;
            while r < height
                invariant
                    width > 0,
                    r <= height,
                    rows@.len() == r,
                    forall|i: int| 0 <= i < r ==> rows@[i] == width,
                    sum(rows@) == width * r,
                decreases height - r,
            {
                proof {
                    assert(rows@.push(width).drop_last() =~= rows@);
                    assert(width * (r + 1) == width * r + width) by (nonlinear_arith);
                }
                rows.push(width);
                r = r + 1;
            }
        }
        proof {
            if width == 0 {
                assert(width * height == 0) by (nonlinear_arith)
                    requires
                        width == 0u64,
                ;
            }
            assert(rows@ =~= spec_full_rows(width, height));
        }
        Bar { rows }
    }

    /// True iff the given `row` / `col` is occupied.
    pub fn contains(&self, row: u64, col: u64) -> (b: bool)
        ensures
            b == self.occupied(row as int, col as int),
    {
        if row < self.rows.len() as u64 {
            col < self.rows[row as usize]
        } else {
            false
        }
    }

    /// Chomp at given position in a `Bar`, removing the given cell and
    /// everything below and to the right of it.
    #[verifier::rlimit(50)]
    pub fn chomp(&mut self, row0: u64, col0: u64)
        requires
            old(self).wf(),
            old(self).occupied(row0 as int, col0 as int),
        ensures
            final(self).wf(),
            final(self).rows_view() == spec_chomp(
                old(self).rows_view(),
                row0 as int,
                col0 as int,
            ),
            forall|r: int, c: int|
                final(self).occupied(r, c) <==> (old(self).occupied(r, c) && (r < row0 || c
                    < col0)),
            final(self).total() < old(self).total(),
    {
        assert(row0 < self.rows@.len());
        if col0 == 0 {
            self.rows.truncate(row0 as usize);
            proof {
                assert(self.rows@ =~= spec_chomp(old(self).rows_view(), row0 as int, col0 as int));
            }
        } else {
            let mut r: usize = row0 as usize;
            while r < self.rows.len()
                invariant
                    old(self).wf(),
                    old(self).occupied(row0 as int, col0 as int),
                    col0 > 0,
                    row0 <= r as u64,
                    r <= self.rows@.len(),
                    self.rows@.len() == old(self).rows_view().len(),
                    forall|i: int|
                        row0 <= i < r ==> self.rows@[i] == min64(
                            old(self).rows_view()[i],
                            col0,
                        ),
                    forall|i: int|
                        0 <= i < row0 || r <= i < self.rows@.len() ==> self.rows@[i] == old(
                            self,
                        ).rows_view()[i],
                decreases self.rows@.len() - r,
            {
                if self.rows[r] > col0 {
                    self.rows.set(r, col0);
                }
                r = r + 1;
            }
            proof {
                assert(self.rows@ =~= spec_chomp(old(self).rows_view(), row0 as int, col0 as int));
            }
        }
        proof {
            lemma_chomp_staircase(old(self).rows_view(), row0 as int, col0 as int);
            lemma_chomp_occ(old(self).rows_view(), row0 as int, col0 as int);
            lemma_chomp_decreases(old(self).rows_view(), row0 as int, col0 as int);
        }
    }

    /// Number of listed rows.
    pub fn row_count(&self) -> (n: usize)
        ensures
            n == self.rows_view().len(),
    {
        self.rows.len()
    }

    /// Width of the given row.
    pub fn row_width(&self, r: usize) -> (w: u64)
        requires
            r < self.rows_view().len(),
        ensures
            w == self.rows_view()[r as int],
    {
        self.rows[r]
    }

    /// Every occupied cell, row by row, left to right.
    pub fn occupied_cells(&self) -> (cells: Vec<(u64, u64)>)
        requires
            self.wf(),
        ensures
            cells@.len() == self.total(),
            forall|i: int|
                #![trigger cells@[i]]
                0 <= i < cells@.len() ==> self.occupied(cells@[i].0 as int, cells@[i].1 as int),
    {
        let mut cells: Vec<(u64, u64)> = Vec::new();
        let mut r: usize = 0;
        while r < self.rows.len()
            invariant
                self.wf(),
                r <= self.rows@.len(),
                cells@.len() == sum(self.rows@.take(r as int)),
                forall|i: int|
                    #![trigger cells@[i]]
                    0 <= i < cells@.len() ==> self.occupied(cells@[i].0 as int, cells@[i].1 as int),
            decreases self.rows@.len() - r,
        {
            let w = self.rows[r];
            let mut c: u64 = 0;
            while c < w
                invariant
                    self.wf(),
                    r < self.rows@.len(),
                    w == self.rows@[r as int],
                    c <= w,
                    cells@.len() == sum(self.rows@.take(r as int)) + c,
                    forall|i: int|
                        #![trigger cells@[i]]
                        0 <= i < cells@.len() ==> self.occupied(
                            cells@[i].0 as int,
                            cells@[i].1 as int,
                        ),
                decreases w - c,
            {
                cells.push((r as u64, c));
                c = c + 1;
            }
            proof {
                lemma_sum_take_succ(self.rows@, r as int);
            }
            r = r + 1;
        }
        proof {
            assert(self.rows@.take(self.rows@.len() as int) =~= self.rows@);
        }
        cells
    }

    /// Render the bar as text: one line per occupied row, a marker per
    /// occupied cell, the poison cell marked distinctly.
    pub fn render(&self) -> (out: String)
        requires
            self.wf(),
        ensures
            out@ == spec_render(self.rows_view()),
    {
        let mut out = String::new();
        let mut r: usize = 0;
        while r < self.rows.len()
            invariant
                self.wf(),
                r <= self.rows@.len(),
                out@ + spec_render_from(self.rows@, r as int) == spec_render(self.rows@),
            decreases self.rows@.len() - r,
        {
            let w = self.rows[r];
            let ghost base = out@;
            let mut c: u64 = 0;
            while c < w
                invariant
                    self.wf(),
                    r < self.rows@.len(),
                    w == self.rows@[r as int],
                    c <= w,
                    out@ == base + spec_line(w, r == 0).take(c as int),
                decreases w - c,
            {
                if r == 0 && c == 0 {
                    out.append("x");
                } else {
                    out.append("o");
                }
                proof {
                    reveal_strlit("x");
                    reveal_strlit("o");
                    assert(out@ =~= base + spec_line(w, r == 0).take(c + 1));
                }
                c = c + 1;
            }
            out.append("\n");
            proof {
                reveal_strlit("\n");
                assert(out@ =~= base + spec_line(w, r == 0));
                assert(out@ + spec_render_from(self.rows@, r as int + 1) =~= spec_render(
                    self.rows@,
                ));
            }
            r = r + 1;
        }
        proof {
            assert(out@ =~= spec_render(self.rows@));
        }
        out
    }

    /// Number of occupied cells.
    pub fn len(&self) -> (n: u64)
        requires
            self.wf(),
        ensures
            n == self.total(),
    {
        let mut n: u64 = 0;
        let mut r: usize = 0;
        while r < self.rows.len()
            invariant
                self.wf(),
                r <= self.rows_view().len(),
                n == sum(self.rows_view().take(r as int)),
            decreases self.rows_view().len() - r,
        {
            proof {
                lemma_sum_take_succ(self.rows_view(), r as int);
                lemma_sum_take_le(self.rows_view(), r + 1);
            }
            n = n + self.rows[r];
            r = r + 1;
        }
        proof {
            assert(self.rows_view().take(self.rows_view().len() as int) =~= self.rows_view());
        }
        n
    }
}

impl Clone for Bar {
    /// An independent copy with the same occupied cells.
    fn clone(&self) -> (res: Bar)
        ensures
            res.rows_view() == self.rows_view(),
    {
        let rows = self.rows.clone();
        proof {
            assert(rows@ =~= self.rows@);
        }
        Bar { rows }
    }
}

/// With every listed row non-empty, a board holds at least one cell per
/// row.
pub proof fn lemma_sum_ge_len(rows: Seq<u64>)
    requires
        forall|i: int| 0 <= i < rows.len() ==> rows[i] > 0,
    ensures
        sum(rows) >= rows.len(),
    decreases rows.len(),
{
    if rows.len() > 0 {
        lemma_sum_ge_len(rows.drop_last());
    }
}

/// Widths never increase going down a staircase board.
pub proof fn lemma_staircase_mono(rows: Seq<u64>, i: int, j: int)
    requires
        staircase(rows),
        0 <= i <= j < rows.len(),
    ensures
        rows[j] <= rows[i],
    decreases j - i,
{
    if i < j {
        lemma_staircase_mono(rows, i, j - 1);
    }
}

/// The occupied set of a staircase board is closed downward and
/// leftward: everything weakly above and left of an occupied cell is
/// occupied too.
pub proof fn lemma_staircase_closed(rows: Seq<u64>, r: int, c: int, r2: int, c2: int)
    requires
        staircase(rows),
        occ(rows, r, c),
        0 <= r2 <= r,
        0 <= c2 <= c,
    ensures
        occ(rows, r2, c2),
{
    lemma_staircase_mono(rows, r2, r);
}

/// The coordinates making up one row of width `w`.
spec fn row_cells(r: int, w: int) -> Set<(int, int)> {
    Set::new(|p: (int, int)| p.0 == r && 0 <= p.1 < w)
}

proof fn lemma_row_cells_len(r: int, w: int)
    requires
        0 <= w,
    ensures
        row_cells(r, w).finite(),
        row_cells(r, w).len() == w,
    decreases w,
{
    if w == 0 {
        assert(row_cells(r, 0) =~= Set::empty());
    } else {
        lemma_row_cells_len(r, w - 1);
        assert(row_cells(r, w) =~= row_cells(r, w - 1).insert((r, w - 1)));
    }
}

/// `sum` counts exactly the coordinates of the occupied set: the cell
/// count used throughout is the cardinality of the board as a set of
/// coordinates.
pub proof fn lemma_cell_set_len(rows: Seq<u64>)
    ensures
        cell_set(rows).finite(),
        cell_set(rows).len() == sum(rows),
    decreases rows.len(),
{
    if rows.len() == 0 {
        assert(cell_set(rows) =~= Set::empty());
    } else {
        let prefix = rows.drop_last();
        let r = rows.len() - 1;
        let w = rows.last() as int;
        lemma_cell_set_len(prefix);
        lemma_row_cells_len(r, w);
        assert(cell_set(prefix).disjoint(row_cells(r, w)));
        vstd::set_lib::lemma_set_disjoint_lens(cell_set(prefix), row_cells(r, w));
        assert(cell_set(rows) =~= cell_set(prefix) + row_cells(r, w));
    }
}

/// An occupied cell means the board is not empty.
pub proof fn lemma_occ_sum_pos(rows: Seq<u64>, r: int, c: int)
    requires
        occ(rows, r, c),
    ensures
        sum(rows) > 0,
{
    lemma_sum_take_succ(rows, r);
    lemma_sum_take_le(rows, r + 1);
}

/// A board whose rows all share one width holds width-times-height
/// cells.
pub proof fn lemma_sum_constant(rows: Seq<u64>, width: u64)
    requires
        forall|i: int| 0 <= i < rows.len() ==> rows[i] == width,
    ensures
        sum(rows) == width * rows.len(),
    decreases rows.len(),
{
    if rows.len() == 0 {
        assert(width * 0 == 0) by (nonlinear_arith);
    } else {
        lemma_sum_constant(rows.drop_last(), width);
        assert(width * (rows.len() - 1) + width == width * rows.len()) by (nonlinear_arith);
    }
}

/// A board that is nowhere wider holds no more cells.
pub proof fn lemma_sum_pointwise_le(s: Seq<u64>, t: Seq<u64>)
    requires
        s.len() == t.len(),
        forall|i: int| 0 <= i < s.len() ==> s[i] <= t[i],
    ensures
        sum(s) <= sum(t),
    decreases s.len(),
{
    if s.len() > 0 {
        lemma_sum_pointwise_le(s.drop_last(), t.drop_last());
    }
}

/// A board that is nowhere wider and somewhere strictly narrower holds
/// strictly fewer cells.
pub proof fn lemma_sum_pointwise_lt(s: Seq<u64>, t: Seq<u64>, j: int)
    requires
        s.len() == t.len(),
        forall|i: int| 0 <= i < s.len() ==> s[i] <= t[i],
        0 <= j < s.len(),
        s[j] < t[j],
    ensures
        sum(s) < sum(t),
    decreases s.len(),
{
    if j == s.len() - 1 {
        lemma_sum_pointwise_le(s.drop_last(), t.drop_last());
    } else {
        lemma_sum_pointwise_lt(s.drop_last(), t.drop_last(), j);
    }
}

/// Chomping at an occupied pivot removes at least one cell.
pub proof fn lemma_chomp_decreases(rows: Seq<u64>, row0: int, col0: int)
    requires
        occ(rows, row0, col0),
    ensures
        sum(spec_chomp(rows, row0, col0)) < sum(rows),
{
    if col0 <= 0 {
        lemma_sum_take_succ(rows, row0);
        lemma_sum_take_le(rows, row0 + 1);
    } else {
        let after = spec_chomp(rows, row0, col0);
        assert(after[row0] == min64(rows[row0], col0 as u64));
        lemma_sum_pointwise_lt(after, rows, row0);
    }
}

/// Chomping keeps the staircase shape.
pub proof fn lemma_chomp_staircase(rows: Seq<u64>, row0: int, col0: int)
    requires
        staircase(rows),
        occ(rows, row0, col0),
    ensures
        staircase(spec_chomp(rows, row0, col0)),
{
    let after = spec_chomp(rows, row0, col0);
    assert forall|r: int| 0 <= r < after.len() implies after[r] > 0 by {
        assert(rows[r] > 0);
    }
    assert forall|r: int| 0 < r < after.len() implies #[trigger] after[r] <= after[r - 1] by {
        assert(rows[r] <= rows[r - 1]);
    }
}

/// After a chomp at `(row0, col0)`, a cell is occupied exactly when it
/// was occupied before and lies strictly above the pivot's row or
/// strictly left of the pivot's column.
pub proof fn lemma_chomp_occ(rows: Seq<u64>, row0: int, col0: int)
    requires
        occ(rows, row0, col0),
    ensures
        forall|r: int, c: int|
            occ(spec_chomp(rows, row0, col0), r, c) <==> (occ(rows, r, c) && (r < row0 || c
                < col0)),
{
}

/// Taking one more row adds that row's width to the cell count.
pub proof fn lemma_sum_take_succ(rows: Seq<u64>, k: int)
    requires
        0 <= k < rows.len(),
    ensures
        sum(rows.take(k + 1)) == sum(rows.take(k)) + rows[k],
{
    assert(rows.take(k + 1).drop_last() =~= rows.take(k));
    assert(rows.take(k + 1).last() == rows[k]);
}

/// A prefix never holds more cells than the whole.
pub proof fn lemma_sum_take_le(rows: Seq<u64>, k: int)
    requires
        0 <= k <= rows.len(),
    ensures
        sum(rows.take(k)) <= sum(rows),
    decreases rows.len() - k,
{
    if k == rows.len() {
        assert(rows.take(k) =~= rows);
    } else {
        lemma_sum_take_succ(rows, k);
        lemma_sum_take_le(rows, k + 1);
    }
}

} // verus!
