//! Full rows and columns of a grid: which cells they hold, and how many they are.

use crate::cut::{listed, zeroed};
use crate::grid::{Grid, Sq};
use vstd::arithmetic::div_mod::{lemma_fundamental_div_mod, lemma_fundamental_div_mod_converse};
use vstd::prelude::*;

verus! {

/// The mark in row `r` and column `c` of a grid whose rows hold `w` cells.
pub open spec fn cell_at(cells: Seq<Sq>, w: int, r: int, c: int) -> Sq {
    cells[r * w + c]
}

/// Every cell of row `r` is marked.
pub open spec fn row_full(cells: Seq<Sq>, w: int, r: int) -> bool {
    forall|c: int| 0 <= c < w ==> #[trigger] cell_at(cells, w, r, c) > 0
}

/// Every cell of column `c` is marked.
pub open spec fn col_full(cells: Seq<Sq>, w: int, h: int, c: int) -> bool {
    forall|r: int| 0 <= r < h ==> #[trigger] cell_at(cells, w, r, c) > 0
}

/// The longer side of a grid of `w` by `h` cells.
pub open spec fn span(w: int, h: int) -> int {
    if w > h {
        w
    } else {
        h
    }
}

/// Row `idx` is a full row of the grid.
pub open spec fn is_full_row(cells: Seq<Sq>, w: int, h: int, idx: int) -> bool {
    0 <= idx < h && row_full(cells, w, idx)
}

/// Column `idx` is a full column of the grid.
pub open spec fn is_full_col(cells: Seq<Sq>, w: int, h: int, idx: int) -> bool {
    0 <= idx < w && col_full(cells, w, h, idx)
}

/// The cells that lines number `idx` give up to their place `i_end`: for
/// each place in turn the cell of row `idx` there, if that row is full, then
/// the cell of column `idx` there, if that column is full.
pub open spec fn line_cells(cells: Seq<Sq>, w: int, h: int, idx: int, i_end: int) -> Seq<usize>
    decreases i_end,
{
    if i_end <= 0 {
        Seq::empty()
    } else {
        let i = i_end - 1;
        let before = line_cells(cells, w, h, idx, i);
        let with_row = if is_full_row(cells, w, h, idx) && i < w {
            before.push((idx * w + i) as usize)
        } else {
            before
        };
        if is_full_col(cells, w, h, idx) && i < h {
            with_row.push((idx + w * i) as usize)
        } else {
            with_row
        }
    }
}

/// The cells of the full rows and columns with numbers below `idx_end`.
pub open spec fn full_cells_upto(cells: Seq<Sq>, w: int, h: int, idx_end: int) -> Seq<usize>
    decreases idx_end,
{
    if idx_end <= 0 {
        Seq::empty()
    } else {
        full_cells_upto(cells, w, h, idx_end - 1) + line_cells(
            cells,
            w,
            h,
            idx_end - 1,
            span(w, h),
        )
    }
}

/// The cells of all full rows and columns: for each number in turn the cells
/// of the row and of the column with that number, place by place, the row's
/// cell before the column's. A cell that lies in a full row and in a full
/// column stands there twice.
pub open spec fn full_cells(cells: Seq<Sq>, w: int, h: int) -> Seq<usize> {
    full_cells_upto(cells, w, h, span(w, h))
}

/// The number of full rows and columns with numbers below `idx_end`.
pub open spec fn full_count_upto(cells: Seq<Sq>, w: int, h: int, idx_end: int) -> int
    decreases idx_end,
{
    if idx_end <= 0 {
        0
    } else {
        full_count_upto(cells, w, h, idx_end - 1) + (if is_full_row(cells, w, h, idx_end - 1) {
            1int
        } else {
            0int
        }) + (if is_full_col(cells, w, h, idx_end - 1) {
            1int
        } else {
            0int
        })
    }
}

/// The number of full rows plus the number of full columns.
pub open spec fn full_count(cells: Seq<Sq>, w: int, h: int) -> int {
    full_count_upto(cells, w, h, span(w, h))
}

/// Cell `x` lies in a full row or in a full column.
pub open spec fn in_full_line(cells: Seq<Sq>, w: int, h: int, x: int) -> bool {
    0 <= x < w * h && (is_full_row(cells, w, h, x / w) || is_full_col(cells, w, h, x % w))
}

/// A cell is listed once more where it is added to the list.
proof fn lemma_listed_push(s: Seq<usize>, e: usize, x: int)
    ensures
        listed(s.push(e), x) <==> listed(s, x) || e == x,
{
    let t = s.push(e);
    if listed(t, x) {
        let j = choose|j: int| 0 <= j < t.len() && #[trigger] t[j] as int == x;
        if j < s.len() {
            assert(s[j] as int == x);
        }
    }
    if listed(s, x) {
        let j = choose|j: int| 0 <= j < s.len() && #[trigger] s[j] as int == x;
        assert(t[j] as int == x);
    }
    if e == x {
        assert(t[s.len() as int] as int == x);
    }
}

/// A cell is listed in two lists joined where it is listed in one of them.
proof fn lemma_listed_add(s: Seq<usize>, t: Seq<usize>, x: int)
    ensures
        listed(s + t, x) <==> listed(s, x) || listed(t, x),
{
    let u = s + t;
    if listed(u, x) {
        let j = choose|j: int| 0 <= j < u.len() && #[trigger] u[j] as int == x;
        if j < s.len() {
            assert(s[j] as int == x);
        } else {
            assert(t[j - s.len()] as int == x);
        }
    }
    if listed(s, x) {
        let j = choose|j: int| 0 <= j < s.len() && #[trigger] s[j] as int == x;
        assert(u[j] as int == x);
    }
    if listed(t, x) {
        let j = choose|j: int| 0 <= j < t.len() && #[trigger] t[j] as int == x;
        assert(u[j + s.len()] as int == x);
    }
}

/// The row and the column of the cell in row `r` and column `c`.
proof fn lemma_row_col(w: int, h: int, r: int, c: int)
    requires
        0 <= r < h <= u8::MAX,
        0 <= c < w <= u8::MAX,
    ensures
        0 <= r * w + c < w * h <= usize::MAX,
        w * r == r * w,
        (r * w + c) / w == r,
        (r * w + c) % w == c,
{
    assert(0 <= r * w && r * w + c < w * h && w * h <= 255 * 255 && w * r == r * w)
        by (nonlinear_arith)
        requires
            0 <= r < h <= 255,
            0 <= c < w <= 255,
    ;
    lemma_fundamental_div_mod_converse(r * w + c, w, r, c);
}

/// Which cells the lines number `idx` give up to place `i_end`.
proof fn lemma_line_cells(cells: Seq<Sq>, w: int, h: int, idx: int, i_end: int, x: int)
    requires
        0 < w <= u8::MAX,
        0 < h <= u8::MAX,
        0 <= idx,
        0 <= i_end,
    ensures
        listed(line_cells(cells, w, h, idx, i_end), x) <==> 0 <= x < w * h && ((is_full_row(
            cells,
            w,
            h,
            idx,
        ) && x / w == idx && x % w < i_end) || (is_full_col(cells, w, h, idx) && x % w == idx && x
            / w < i_end)),
    decreases i_end,
{
    if i_end > 0 {
        let i = i_end - 1;
        lemma_line_cells(cells, w, h, idx, i, x);
        let before = line_cells(cells, w, h, idx, i);
        let with_row = if is_full_row(cells, w, h, idx) && i < w {
            before.push((idx * w + i) as usize)
        } else {
            before
        };
        if is_full_row(cells, w, h, idx) && i < w {
            lemma_row_col(w, h, idx, i);
            lemma_listed_push(before, (idx * w + i) as usize, x);
        }
        if is_full_col(cells, w, h, idx) && i < h {
            lemma_row_col(w, h, i, idx);
            lemma_listed_push(with_row, (idx + w * i) as usize, x);
        }
        if 0 <= x < w * h {
            lemma_fundamental_div_mod(x, w);
            vstd::arithmetic::div_mod::lemma_mod_bound(x, w);
            assert(0 <= x / w < h) by (nonlinear_arith)
                requires
                    0 <= x < w * h,
                    0 < w,
                    x == w * (x / w) + x % w,
                    0 <= x % w < w,
            ;
        }
    } else {
        assert(!listed(line_cells(cells, w, h, idx, i_end), x));
        if 0 <= x < w * h {
            vstd::arithmetic::div_mod::lemma_mod_bound(x, w);
            assert(x / w >= 0) by (nonlinear_arith)
                requires
                    x >= 0,
                    w > 0,
            ;
        }
    }
}

/// Which cells the full rows and columns below `idx_end` give.
proof fn lemma_full_cells_upto(cells: Seq<Sq>, w: int, h: int, idx_end: int, x: int)
    requires
        0 < w <= u8::MAX,
        0 < h <= u8::MAX,
        0 <= idx_end,
    ensures
        listed(full_cells_upto(cells, w, h, idx_end), x) <==> 0 <= x < w * h && ((is_full_row(
            cells,
            w,
            h,
            x / w,
        ) && x / w < idx_end) || (is_full_col(cells, w, h, x % w) && x % w < idx_end)),
    decreases idx_end,
{
    if idx_end > 0 {
        lemma_full_cells_upto(cells, w, h, idx_end - 1, x);
        lemma_line_cells(cells, w, h, idx_end - 1, span(w, h), x);
        lemma_listed_add(
            full_cells_upto(cells, w, h, idx_end - 1),
            line_cells(cells, w, h, idx_end - 1, span(w, h)),
            x,
        );
        if 0 <= x < w * h {
            vstd::arithmetic::div_mod::lemma_mod_bound(x, w);
            lemma_fundamental_div_mod(x, w);
            assert(0 <= x / w < h) by (nonlinear_arith)
                requires
                    0 <= x < w * h,
                    0 < w,
                    x == w * (x / w) + x % w,
                    0 <= x % w < w,
            ;
        }
    } else {
        assert(!listed(full_cells_upto(cells, w, h, idx_end), x));
        if 0 <= x < w * h {
            vstd::arithmetic::div_mod::lemma_mod_bound(x, w);
            assert(x / w >= 0) by (nonlinear_arith)
                requires
                    x >= 0,
                    w > 0,
            ;
        }
    }
}

/// The cells of the full rows and columns are the cells that lie in a full
/// row or in a full column.
pub proof fn lemma_full_cells(cells: Seq<Sq>, w: int, h: int, x: int)
    requires
        0 < w <= u8::MAX,
        0 < h <= u8::MAX,
    ensures
        listed(full_cells(cells, w, h), x) <==> in_full_line(cells, w, h, x),
{
    lemma_full_cells_upto(cells, w, h, span(w, h), x);
}

/// Where no row and no column is full, there are no cells of full lines and
/// the count is 0.
proof fn lemma_none_full(cells: Seq<Sq>, w: int, h: int, idx_end: int)
    requires
        forall|idx: int| !is_full_row(cells, w, h, idx) && !is_full_col(cells, w, h, idx),
    ensures
        full_cells_upto(cells, w, h, idx_end) == Seq::<usize>::empty(),
        full_count_upto(cells, w, h, idx_end) == 0,
    decreases idx_end,
{
    if idx_end > 0 {
        lemma_none_full(cells, w, h, idx_end - 1);
        lemma_none_line(cells, w, h, idx_end - 1, span(w, h));
    }
}

/// Lines that are not full give no cells.
proof fn lemma_none_line(cells: Seq<Sq>, w: int, h: int, idx: int, i_end: int)
    requires
        !is_full_row(cells, w, h, idx) && !is_full_col(cells, w, h, idx),
    ensures
        line_cells(cells, w, h, idx, i_end) == Seq::<usize>::empty(),
    decreases i_end,
{
    if i_end > 0 {
        lemma_none_line(cells, w, h, idx, i_end - 1);
    }
}

/// Where a row or a column is full, it is counted and gives cells.
proof fn lemma_some_full(cells: Seq<Sq>, w: int, h: int, idx: int)
    requires
        0 < w <= u8::MAX,
        0 < h <= u8::MAX,
        is_full_row(cells, w, h, idx) || is_full_col(cells, w, h, idx),
    ensures
        full_cells(cells, w, h).len() > 0,
{
    let x = if is_full_row(cells, w, h, idx) {
        idx * w
    } else {
        idx
    };
    if is_full_row(cells, w, h, idx) {
        lemma_row_col(w, h, idx, 0);
    } else {
        lemma_row_col(w, h, 0, idx);
    }
    lemma_full_cells(cells, w, h, x);
    assert(listed(full_cells(cells, w, h), x));
}

/// The count of full lines is at least 0, at most two for each number, and
/// at most one for each row and each column.
proof fn lemma_count_bounds(cells: Seq<Sq>, w: int, h: int, idx_end: int)
    requires
        0 <= idx_end,
        0 <= w,
        0 <= h,
    ensures
        0 <= full_count_upto(cells, w, h, idx_end) <= 2 * idx_end,
        full_count_upto(cells, w, h, idx_end) <= (if idx_end < h {
            idx_end
        } else {
            h
        }) + (if idx_end < w {
            idx_end
        } else {
            w
        }),
    decreases idx_end,
{
    if idx_end > 0 {
        lemma_count_bounds(cells, w, h, idx_end - 1);
    }
}

/// There are no more full rows and columns than rows and columns.
pub proof fn lemma_full_count_bounds(cells: Seq<Sq>, w: int, h: int)
    requires
        0 <= w,
        0 <= h,
    ensures
        0 <= full_count(cells, w, h) <= w + h,
{
    lemma_count_bounds(cells, w, h, span(w, h));
}

/// Once the cells of the full rows and columns are cleared, no row and no
/// column is full: clearing the full lines again finds none.
pub proof fn lemma_cleared_has_no_full_line(cells: Seq<Sq>, w: int, h: int)
    requires
        0 < w <= u8::MAX,
        0 < h <= u8::MAX,
        cells.len() == w * h,
    ensures
        full_cells(zeroed(cells, full_cells(cells, w, h)), w, h) == Seq::<usize>::empty(),
        full_count(zeroed(cells, full_cells(cells, w, h)), w, h) == 0,
{
    let ids = full_cells(cells, w, h);
    let after = zeroed(cells, ids);
    assert forall|idx: int| !is_full_row(after, w, h, idx) && !is_full_col(after, w, h, idx) by {
        if 0 <= idx < h {
            if row_full(cells, w, idx) {
                lemma_row_col(w, h, idx, 0);
                lemma_full_cells(cells, w, h, idx * w + 0);
                assert(cell_at(after, w, idx, 0) == 0);
            } else {
                let c = choose|c: int| 0 <= c < w && !(#[trigger] cell_at(cells, w, idx, c) > 0);
                lemma_row_col(w, h, idx, c);
                assert(cell_at(after, w, idx, c) == 0);
            }
        }
        if 0 <= idx < w {
            if col_full(cells, w, h, idx) {
                lemma_row_col(w, h, 0, idx);
                lemma_full_cells(cells, w, h, 0 * w + idx);
                assert(cell_at(after, w, 0, idx) == 0);
            } else {
                let r = choose|r: int| 0 <= r < h && !(#[trigger] cell_at(cells, w, r, idx) > 0);
                lemma_row_col(w, h, r, idx);
                assert(cell_at(after, w, r, idx) == 0);
            }
        }
    }
    lemma_none_full(after, w, h, span(w, h));
}

/// Where the full rows and columns give no cells, none is full.
pub proof fn lemma_no_cells_no_lines(cells: Seq<Sq>, w: int, h: int)
    requires
        0 < w <= u8::MAX,
        0 < h <= u8::MAX,
        full_cells(cells, w, h).len() == 0,
    ensures
        full_count(cells, w, h) == 0,
{
    assert forall|idx: int| !is_full_row(cells, w, h, idx) && !is_full_col(cells, w, h, idx) by {
        if is_full_row(cells, w, h, idx) || is_full_col(cells, w, h, idx) {
            lemma_some_full(cells, w, h, idx);
        }
    }
    lemma_none_full(cells, w, h, span(w, h));
}

impl Grid {
    /// Whether every cell of row `r` is marked.
    fn row_is_full(&self, r: usize) -> (full: bool)
        requires
            self.wf(),
            r < self.height,
        ensures
            full == row_full(self@.cells, self@.width, r as int),
    {
        let w = self.width as usize;
        let mut c: usize = 0;
        while c < w
            invariant
                self.wf(),
                r < self.height,
                w == self.width,
                c <= w,
                forall|j: int| 0 <= j < c ==> #[trigger] cell_at(self@.cells, w as int, r as int, j) > 0,
            decreases w - c,
        {
            proof {
                lemma_row_col(w as int, self.height as int, r as int, c as int);
            }
            if self.cells[r * w + c] == 0 {
                assert(!(cell_at(self@.cells, w as int, r as int, c as int) > 0));
                return false;
            }
            c += 1;
        }
        true
    }

    /// Whether every cell of column `c` is marked.
    fn col_is_full(&self, c: usize) -> (full: bool)
        requires
            self.wf(),
            c < self.width,
        ensures
            full == col_full(self@.cells, self@.width, self@.height, c as int),
    {
        let w = self.width as usize;
        let h = self.height as usize;
        let mut r: usize = 0;
        while r < h
            invariant
                self.wf(),
                c < self.width,
                w == self.width,
                h == self.height,
                r <= h,
                forall|j: int| 0 <= j < r ==> #[trigger] cell_at(self@.cells, w as int, j, c as int) > 0,
            decreases h - r,
        {
            proof {
                lemma_row_col(w as int, h as int, r as int, c as int);
            }
            if self.cells[r * w + c] == 0 {
                assert(!(cell_at(self@.cells, w as int, r as int, c as int) > 0));
                return false;
            }
            r += 1;
        }
        true
    }

    /// Finds the full rows and columns: their cells, in the order of
    /// `full_cells`, and their number.
    pub fn full_lines(&self) -> (r: (Vec<usize>, u32))
        requires
            self.wf(),
            self.height > 0,
        ensures
            r.0@ == full_cells(self@.cells, self@.width, self@.height),
            r.1 == full_count(self@.cells, self@.width, self@.height),
            forall|j: int| 0 <= j < r.0@.len() ==> r.0@[j] < self@.cells.len(),
    {
        let w = self.width as usize;
        let h = self.height as usize;
        let n = if w > h {
            w
        } else {
            h
        };
        let ghost cells = self@.cells;
        let mut cleared: Vec<usize> = Vec::new();
        let mut count: u32 = 0;
        let mut idx: usize = 0;
        while idx < n
            invariant
                self.wf(),
                h > 0,
                w == self.width,
                h == self.height,
                cells == self@.cells,
                n == span(w as int, h as int),
                idx <= n,
                cleared@ == full_cells_upto(cells, w as int, h as int, idx as int),
                count == full_count_upto(cells, w as int, h as int, idx as int),
                count <= 2 * idx,
                forall|j: int| 0 <= j < cleared@.len() ==> cleared@[j] < cells.len(),
            decreases n - idx,
        {
            let row = idx < h && self.row_is_full(idx);
            let col = idx < w && self.col_is_full(idx);
            if row {
                count += 1;
            }
            if col {
                count += 1;
            }
            let ghost done = cleared@;
            let mut i: usize = 0;
            while i < n
                invariant
                    self.wf(),
                    h > 0,
                    w == self.width,
                    h == self.height,
                    cells == self@.cells,
                    n == span(w as int, h as int),
                    idx < n,
                    i <= n,
                    row == is_full_row(cells, w as int, h as int, idx as int),
                    col == is_full_col(cells, w as int, h as int, idx as int),
                    cleared@ == done + line_cells(cells, w as int, h as int, idx as int, i as int),
                    forall|j: int| 0 <= j < cleared@.len() ==> cleared@[j] < cells.len(),
                decreases n - i,
            {
                let ghost sofar = cleared@;
                if row && i < w {
                    proof {
                        lemma_row_col(w as int, h as int, idx as int, i as int);
                    }
                    cleared.push(idx * w + i);
                }
                if col && i < h {
                    proof {
                        lemma_row_col(w as int, h as int, i as int, idx as int);
                    }
                    cleared.push(idx + w * i);
                }
                assert(cleared@ =~= done + line_cells(cells, w as int, h as int, idx as int, i + 1));
                i += 1;
            }
            idx += 1;
        }
        (cleared, count)
    }
}

} // verus!
