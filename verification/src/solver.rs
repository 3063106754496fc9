//! Exhaustive negamax solver for Chomp, and the random fallback move.
//!
//! A position is winning for the player to move exactly when some legal
//! non-poison chomp leaves the opponent without a forced win.  The solver
//! searches every move of every reachable position; its contract ties the
//! returned move to that win predicate.

use vstd::prelude::*;

use crate::board::{lemma_chomp_decreases, occ, spec_chomp, staircase, sum, Bar};

verus! {

/// The player to move on a board with the given row widths has a forced
/// win: some occupied, non-poison pivot leaves the opponent in a
/// position with no forced win of their own.
pub open spec fn spec_wins(rows: Seq<u64>) -> bool
    decreases sum(rows),
    via spec_wins_decreases
{
    exists|r: int, c: int|
        #![trigger spec_chomp(rows, r, c)]
        occ(rows, r, c) && !(r == 0 && c == 0) && !spec_wins(spec_chomp(rows, r, c))
}

#[via_fn]
proof fn spec_wins_decreases(rows: Seq<u64>) {
    assert forall|r: int, c: int| occ(rows, r, c) && !(r == 0 && c == 0) implies sum(
        spec_chomp(rows, r, c),
    ) < sum(rows) by {
        lemma_chomp_decreases(rows, r, c);
    }
}

impl Bar {
    /// The player to move on this board has a forced win.
    pub open spec fn wins(self) -> bool {
        spec_wins(self.rows_view())
    }

    /// Return a winning move iff the game is a win for the side on move.
    ///
    /// The returned pivot is occupied, is not the poison cell, and leaves
    /// the opponent without a forced win; `None` comes back exactly when
    /// no such pivot exists.
    pub fn negamax(&self) -> (res: Option<(u64, u64)>)
        requires
            self.wf(),
        ensures
            res is Some <==> self.wins(),
            res matches Some(m) ==> self.occupied(m.0 as int, m.1 as int) && !(m.0 == 0 && m.1
                == 0) && !spec_wins(spec_chomp(self.rows_view(), m.0 as int, m.1 as int)),
        decreases self.total(),
    {
        let ghost rows = self.rows_view();
        // Base case: there is just poison.
        if self.len() == 1 {
            proof {
                lemma_lone_poison_no_win(rows);
            }
            return None;
        }
        // Recursive case: try to find a way to make the opponent eat
        // poison.
        let mut r: usize = 0;
        while r < self.row_count()
            invariant
                self.wf(),
                rows == self.rows_view(),
                r <= rows.len(),
                forall|rr: int, cc: int|
                    occ(rows, rr, cc) && rr < r && !(rr == 0 && cc == 0) ==> spec_wins(
                        #[trigger] spec_chomp(rows, rr, cc),
                    ),
            decreases rows.len() - r,
        {
            let w = self.row_width(r);
            let mut c: u64 = 0;
            while c < w
                invariant
                    self.wf(),
                    rows == self.rows_view(),
                    r < rows.len(),
                    w == rows[r as int],
                    c <= w,
                    forall|rr: int, cc: int|
                        occ(rows, rr, cc) && rr < r && !(rr == 0 && cc == 0) ==> spec_wins(
                            #[trigger] spec_chomp(rows, rr, cc),
                        ),
                    forall|cc: int|
                        0 <= cc < c && !(r == 0 && cc == 0) ==> spec_wins(
                            #[trigger] spec_chomp(rows, r as int, cc),
                        ),
                decreases w - c,
            {
                if !(r == 0 && c == 0) {
                    let mut next = self.clone();
                    next.chomp(r as u64, c);
                    if next.negamax().is_none() {
                        proof {
                            assert(occ(rows, r as int, c as int) && !(r == 0 && c == 0)
                                && !spec_wins(spec_chomp(rows, r as int, c as int)));
                        }
                        return Some((r as u64, c));
                    }
                }
                c = c + 1;
            }
            r = r + 1;
        }
        None
    }

    /// Get a random move. May be poison.
    pub fn random_move(&self) -> (m: (u64, u64))
        requires
            self.wf(),
            self.total() > 0,
        ensures
            self.occupied(m.0 as int, m.1 as int),
    {
        let cells = self.occupied_cells();
        let i = random_below(cells.len() as u64);
        cells[i as usize]
    }
}

/// A board holding exactly one cell is the lone-poison position, and the
/// player to move there has no forced win: the only legal move eats the
/// poison.
pub proof fn lemma_lone_poison_no_win(rows: Seq<u64>)
    requires
        staircase(rows),
        sum(rows) == 1,
    ensures
        rows == seq![1u64],
        !spec_wins(rows),
{
    crate::board::lemma_sum_ge_len(rows);
    assert(rows.len() == 1);
    assert(sum(rows) == sum(rows.drop_last()) + rows.last());
    assert(rows.drop_last().len() == 0);
    assert(rows =~= seq![1u64]);
}

/// On a full rectangle, a move of the corner-removal steal commutes:
/// chomping any cell that survives the removal of the bottom-right
/// corner gives the same board whether or not that corner was removed
/// first.
proof fn lemma_steal_commute(rows: Seq<u64>, width: u64, height: u64, r: int, c: int)
    requires
        rows.len() == height,
        forall|i: int| 0 <= i < rows.len() ==> rows[i] == width,
        width > 0,
        height > 0,
        occ(spec_chomp(rows, height - 1, width - 1), r, c),
    ensures
        occ(rows, r, c),
        spec_chomp(spec_chomp(rows, height - 1, width - 1), r, c) == spec_chomp(rows, r, c),
{
    let after = spec_chomp(rows, height - 1, width - 1);
    if width == 1 {
        assert(after =~= rows.take(height - 1));
        assert(occ(rows, r, c));
        assert(spec_chomp(after, r, c) =~= spec_chomp(rows, r, c));
    } else {
        assert(after.len() == height);
        assert(forall|i: int| 0 <= i < height - 1 ==> after[i] == width);
        assert(after[height - 1] == width - 1);
        assert(occ(rows, r, c));
        if c <= 0 {
            assert(spec_chomp(after, r, c) =~= spec_chomp(rows, r, c));
        } else {
            assert forall|i: int| 0 <= i < height implies spec_chomp(after, r, c)[i]
                == spec_chomp(rows, r, c)[i] by {
                if i >= r && i == height - 1 {
                    assert(c < after[r]);
                    assert(c <= width - 1);
                }
            }
            assert(spec_chomp(after, r, c) =~= spec_chomp(rows, r, c));
        }
    }
}

/// Strategy stealing: on a full rectangle holding more than the poison
/// cell, the player to move has a forced win.  Either removing the
/// bottom-right corner alone is winning, or some winning reply to that
/// removal was already a winning move on the full rectangle.
pub proof fn lemma_rectangle_wins(rows: Seq<u64>, width: u64, height: u64)
    requires
        rows.len() == height,
        forall|i: int| 0 <= i < rows.len() ==> rows[i] == width,
        sum(rows) > 1,
    ensures
        spec_wins(rows),
{
    crate::board::lemma_sum_constant(rows, width);
    assert(width > 0 && height > 0) by (nonlinear_arith)
        requires
            width * height > 1,
            height == rows.len(),
    ;
    assert(!(width == 1 && height == 1)) by (nonlinear_arith)
        requires
            width * height > 1,
    ;
    let after = spec_chomp(rows, height - 1, width - 1);
    assert(occ(rows, height - 1, width - 1));
    if !spec_wins(after) {
        assert(occ(rows, height - 1, width - 1) && !(height - 1 == 0 && width - 1 == 0)
            && !spec_wins(spec_chomp(rows, height - 1, width - 1)));
        assert(spec_wins(rows));
    } else {
        let (r, c) = choose|r: int, c: int|
            #![trigger spec_chomp(after, r, c)]
            occ(after, r, c) && !(r == 0 && c == 0) && !spec_wins(spec_chomp(after, r, c));
        lemma_steal_commute(rows, width, height, r, c);
        assert(occ(rows, r, c) && !(r == 0 && c == 0) && !spec_wins(spec_chomp(rows, r, c)));
        assert(spec_wins(rows));
    }
}

/// Terminal detection on a fresh bar: the player to move on the full
/// `width` by `height` rectangle has a forced win exactly when the bar
/// holds more than the poison cell alone.
pub proof fn lemma_full_bar_wins_iff(width: u64, height: u64)
    ensures
        spec_wins(crate::board::spec_full_rows(width, height)) <==> width * height > 1,
{
    let rows = crate::board::spec_full_rows(width, height);
    if width == 0 {
        assert(width * height == 0) by (nonlinear_arith)
            requires
                width == 0u64,
        ;
        assert(!spec_wins(rows));
    } else {
        crate::board::lemma_sum_constant(rows, width);
        if width * height > 1 {
            lemma_rectangle_wins(rows, width, height);
        } else {
            if sum(rows) == 0 {
                assert forall|r: int, c: int| !(occ(rows, r, c) && !(r == 0 && c == 0)
                    && !spec_wins(#[trigger] spec_chomp(rows, r, c))) by {
                    if occ(rows, r, c) {
                        crate::board::lemma_occ_sum_pos(rows, r, c);
                    }
                }
                assert(!spec_wins(rows));
            } else {
                assert(width == 1 && height == 1) by (nonlinear_arith)
                    requires
                        width * height <= 1,
                        width * height > 0,
                        width > 0,
                        height > 0,
                ;
                lemma_lone_poison_no_win(rows);
            }
        }
    }
}

/// Relies on rand's `random_range` over `0..n`: the sample is drawn
/// uniformly from that non-empty range, so in particular it lies below
/// `n`.
#[verifier::external_body]
fn random_below(n: u64) -> (r: u64)
    requires
        n > 0,
    ensures
        r < n,
{
    let mut rng = rand::rng();
    rand::RngExt::random_range(&mut rng, 0..n)
}

} // verus!
