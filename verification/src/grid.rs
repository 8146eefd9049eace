//! Occupancy grids: a rectangle of cells, the bricks that lie on it, and the
//! rule that a cell is marked exactly where one dot of one brick lies.

use crate::clusters::linked;
use crate::shapes::{lemma_min_bounds, views_of, Brick, BrickView, Dir};
use vstd::arithmetic::div_mod::{lemma_fundamental_div_mod, lemma_fundamental_div_mod_converse};
use vstd::prelude::*;

verus! {

/// One cell of a grid: 0 where it is free, 1 where a dot lies on it.
pub type Sq = u8;

/// Dot `k` of `b` lies inside a grid of `w` by `h` cells, in the row and
/// column that its offsets give from the origin's.
pub open spec fn fits(b: BrickView, k: int, w: int, h: int) -> bool {
    b.orig % w + b.dots[k].0 < w && b.orig / w + b.dots[k].1 < h
}

/// `b` is a brick as a grid of `w` by `h` cells holds it: it has dots, no two
/// of them the same, they hang together, the origin is the corner of their
/// bounding box, and each dot lies inside the grid.
pub open spec fn placed(b: BrickView, w: int, h: int) -> bool {
    &&& b.dots.len() > 0
    &&& b.dots.no_duplicates()
    &&& b.orig >= 0
    &&& b.normalized()
    &&& linked(b.dots)
    &&& forall|k: int| 0 <= k < b.dots.len() ==> #[trigger] fits(b, k, w, h)
}

/// No two dots, of one brick or of two, lie on the same cell.
pub open spec fn disjoint(bricks: Seq<BrickView>, w: int) -> bool {
    forall|i: int, k: int, j: int, l: int|
        0 <= i < bricks.len() && 0 <= k < bricks[i].dots.len() && 0 <= j < bricks.len() && 0 <= l
            < bricks[j].dots.len() && (i != j || k != l) ==> #[trigger] bricks[i].cell(k, w)
            != #[trigger] bricks[j].cell(l, w)
}

/// The bricks can lie together on a grid of `w` by `h` cells.
pub open spec fn tidy(bricks: Seq<BrickView>, w: int, h: int) -> bool {
    &&& forall|i: int| 0 <= i < bricks.len() ==> placed(#[trigger] bricks[i], w, h)
    &&& disjoint(bricks, w)
}

/// Some brick has a dot on cell `c`.
pub open spec fn covered(bricks: Seq<BrickView>, w: int, c: int) -> bool {
    exists|i: int| 0 <= i < bricks.len() && (#[trigger] bricks[i]).covers(w, c)
}

/// Some brick other than number `skip` has a dot on cell `c`.
pub open spec fn covered_by_others(bricks: Seq<BrickView>, skip: int, w: int, c: int) -> bool {
    exists|j: int| 0 <= j < bricks.len() && j != skip && (#[trigger] bricks[j]).covers(w, c)
}

/// The mark of a cell: 1 where it is covered, 0 where it is free.
pub open spec fn mark(is_covered: bool) -> Sq {
    if is_covered {
        1
    } else {
        0
    }
}

/// `cells` with `v` written to every cell that a dot of `b` lies on.
pub open spec fn marked(cells: Seq<Sq>, b: BrickView, w: int, v: Sq) -> Seq<Sq> {
    Seq::new(
        cells.len(),
        |c: int|
            if b.covers(w, c) {
                v
            } else {
                cells[c]
            },
    )
}

/// No dot of `b` would lie on a cell that one of `bricks` covers.
pub open spec fn vacant(bricks: Seq<BrickView>, b: BrickView, w: int) -> bool {
    forall|k: int| 0 <= k < b.dots.len() ==> !covered(bricks, w, #[trigger] b.cell(k, w))
}

/// Every dot of `b` lies on a cell of `cells`, and on a free one.
pub open spec fn free_for(cells: Seq<Sq>, b: BrickView, w: int) -> bool {
    forall|k: int| 0 <= k < b.dots.len() ==> cells[#[trigger] b.cell(k, w)] == 0
}

/// Every dot of `b` lies on a cell of `cells`.
pub open spec fn within(cells: Seq<Sq>, b: BrickView, w: int) -> bool {
    forall|k: int| 0 <= k < b.dots.len() ==> 0 <= #[trigger] b.cell(k, w) < cells.len()
}

/// Cell `c` lies on the edge that a slide towards `dir` ends at.
pub open spec fn on_edge(c: int, dir: Dir, w: int, h: int) -> bool {
    match dir {
        Dir::Up => c / w == h - 1,
        Dir::Down => c / w == 0,
        Dir::Left => c % w == 0,
        Dir::Right => c % w == w - 1,
    }
}

/// Some dot of `b` lies on the edge that a slide towards `dir` ends at.
pub open spec fn at_edge(b: BrickView, dir: Dir, w: int, h: int) -> bool {
    exists|k: int| 0 <= k < b.dots.len() && on_edge(#[trigger] b.cell(k, w), dir, w, h)
}

/// What one step towards `dir` adds to a flat index.
pub open spec fn step(dir: Dir, w: int) -> int {
    match dir {
        Dir::Up => w,
        Dir::Down => -w,
        Dir::Left => -1,
        Dir::Right => 1,
    }
}

/// Brick `i` can move one step towards `dir`: it does not touch that edge,
/// and no other brick lies on the cells it would move to.
pub open spec fn can_step(bricks: Seq<BrickView>, i: int, dir: Dir, w: int, h: int) -> bool {
    &&& !at_edge(bricks[i], dir, w, h)
    &&& forall|k: int|
        0 <= k < bricks[i].dots.len() ==> !covered_by_others(
            bricks,
            i,
            w,
            #[trigger] bricks[i].cell(k, w) + step(dir, w),
        )
}

/// The bricks after brick `i` has moved one step towards `dir` if it can.
pub open spec fn step_brick(bricks: Seq<BrickView>, i: int, dir: Dir, w: int, h: int) -> Seq<
    BrickView,
> {
    if can_step(bricks, i, dir, w, h) {
        bricks.update(i, bricks[i].at(bricks[i].orig + step(dir, w)))
    } else {
        bricks
    }
}

/// Brick `b` is brick `a` moved towards `dir` by some steps, or by none.
pub open spec fn headed(a: BrickView, b: BrickView, dir: Dir, w: int) -> bool {
    &&& b.dots == a.dots
    &&& b.shape == a.shape
    &&& match dir {
        Dir::Up => b.orig % w == a.orig % w && b.orig / w >= a.orig / w,
        Dir::Down => b.orig % w == a.orig % w && b.orig / w <= a.orig / w,
        Dir::Left => b.orig / w == a.orig / w && b.orig % w <= a.orig % w,
        Dir::Right => b.orig / w == a.orig / w && b.orig % w >= a.orig % w,
    }
}

/// The number of steps from `b` to the edge that `dir` leads to.
pub open spec fn way(b: BrickView, dir: Dir, w: int, h: int) -> int {
    match dir {
        Dir::Up => h - 1 - (b.orig / w + b.height()),
        Dir::Down => b.orig / w,
        Dir::Left => b.orig % w,
        Dir::Right => w - 1 - (b.orig % w + b.width()),
    }
}

/// Where dot `k` of a brick lies: inside the grid, in the column and row that
/// its offsets give from the origin's.
pub proof fn lemma_cell_position(b: BrickView, k: int, w: int, h: int)
    requires
        w > 0,
        b.orig >= 0,
        0 <= k < b.dots.len(),
        fits(b, k, w, h),
    ensures
        0 <= b.cell(k, w) < w * h,
        b.cell(k, w) % w == b.orig % w + b.dots[k].0,
        b.cell(k, w) / w == b.orig / w + b.dots[k].1,
{
    let c0 = b.orig % w;
    let r0 = b.orig / w;
    let dx = b.dots[k].0 as int;
    let dy = b.dots[k].1 as int;
    lemma_fundamental_div_mod(b.orig, w);
    assert(0 <= c0 < w && r0 >= 0) by (nonlinear_arith)
        requires
            b.orig >= 0,
            w > 0,
            c0 == b.orig % w,
            r0 == b.orig / w,
    ;
    assert(b.cell(k, w) == (r0 + dy) * w + (c0 + dx)) by (nonlinear_arith)
        requires
            b.cell(k, w) == dx + dy * w + b.orig,
            b.orig == w * r0 + c0,
    ;
    lemma_fundamental_div_mod_converse(b.cell(k, w), w, r0 + dy, c0 + dx);
    assert((r0 + dy) * w + (c0 + dx) < w * h && (r0 + dy) * w >= 0) by (nonlinear_arith)
        requires
            0 <= r0 + dy < h,
            0 <= c0 + dx < w,
    ;
}

/// A placed brick that does not touch the edge towards `dir` is still placed
/// one step further that way, and each of its dots lies one step further.
pub proof fn lemma_step_placed(b: BrickView, dir: Dir, w: int, h: int)
    requires
        w > 0,
        placed(b, w, h),
        !at_edge(b, dir, w, h),
    ensures
        placed(b.at(b.orig + step(dir, w)), w, h),
        forall|k: int|
            0 <= k < b.dots.len() ==> #[trigger] b.at(b.orig + step(dir, w)).cell(k, w) == b.cell(
                k,
                w,
            ) + step(dir, w),
        headed(b, b.at(b.orig + step(dir, w)), dir, w),
{
    let c0 = b.orig % w;
    let r0 = b.orig / w;
    let moved = b.at(b.orig + step(dir, w));
    lemma_fundamental_div_mod(b.orig, w);
    lemma_min_bounds(b.dots);
    assert(0 <= c0 < w && r0 >= 0) by (nonlinear_arith)
        requires
            b.orig >= 0,
            w > 0,
            c0 == b.orig % w,
            r0 == b.orig / w,
    ;
    assert forall|k: int| 0 <= k < b.dots.len() implies !on_edge(b.cell(k, w), dir, w, h)
        && b.cell(k, w) % w == c0 + b.dots[k].0 && b.cell(k, w) / w == r0 + b.dots[k].1 by {
        assert(fits(b, k, w, h));
        lemma_cell_position(b, k, w, h);
    }
    let kx = choose|k: int| 0 <= k < b.dots.len() && (#[trigger] b.dots[k]).0 == 0;
    let ky = choose|k: int| 0 <= k < b.dots.len() && (#[trigger] b.dots[k]).1 == 0;
    assert(fits(b, kx, w, h) && fits(b, ky, w, h));
    assert(!on_edge(b.cell(kx, w), dir, w, h) && !on_edge(b.cell(ky, w), dir, w, h));
    let (r1, c1) = match dir {
        Dir::Up => (r0 + 1, c0),
        Dir::Down => (r0 - 1, c0),
        Dir::Left => (r0, c0 - 1),
        Dir::Right => (r0, c0 + 1),
    };
    assert(0 <= c1 < w && r1 >= 0);
    assert(moved.orig == r1 * w + c1 && r1 * w >= 0) by (nonlinear_arith)
        requires
            b.orig == w * r0 + c0,
            moved.orig == b.orig + step(dir, w),
            r1 >= 0,
            w > 0,
            match dir {
                Dir::Up => r1 == r0 + 1 && c1 == c0 && step(dir, w) == w,
                Dir::Down => r1 == r0 - 1 && c1 == c0 && step(dir, w) == -w,
                Dir::Left => r1 == r0 && c1 == c0 - 1 && step(dir, w) == -1,
                Dir::Right => r1 == r0 && c1 == c0 + 1 && step(dir, w) == 1,
            },
    ;
    lemma_fundamental_div_mod_converse(moved.orig, w, r1, c1);
    assert forall|k: int| 0 <= k < b.dots.len() implies #[trigger] fits(moved, k, w, h) by {
        assert(fits(b, k, w, h));
        assert(!on_edge(b.cell(k, w), dir, w, h));
    }
}

/// On a tidy grid a cell is covered exactly where brick `i` or another brick
/// covers it, and never by both.
pub proof fn lemma_covered_split(bricks: Seq<BrickView>, i: int, w: int, c: int)
    requires
        0 <= i < bricks.len(),
        disjoint(bricks, w),
    ensures
        covered(bricks, w, c) <==> bricks[i].covers(w, c) || covered_by_others(bricks, i, w, c),
        !(bricks[i].covers(w, c) && covered_by_others(bricks, i, w, c)),
{
    if covered(bricks, w, c) {
        let j = choose|j: int| 0 <= j < bricks.len() && (#[trigger] bricks[j]).covers(w, c);
        if j != i {
            assert(covered_by_others(bricks, i, w, c));
        }
    }
    if covered_by_others(bricks, i, w, c) {
        let j = choose|j: int| 0 <= j < bricks.len() && j != i && (#[trigger] bricks[j]).covers(w, c);
        assert(bricks[j].covers(w, c));
        if bricks[i].covers(w, c) {
            let k = choose|k: int| 0 <= k < bricks[i].dots.len() && #[trigger] bricks[i].cell(k, w) == c;
            let l = choose|l: int| 0 <= l < bricks[j].dots.len() && #[trigger] bricks[j].cell(l, w) == c;
            assert(bricks[i].cell(k, w) != bricks[j].cell(l, w));
        }
    }
}

/// What the other bricks cover does not depend on brick `i`.
pub proof fn lemma_others_unchanged(bricks: Seq<BrickView>, i: int, b: BrickView, w: int, c: int)
    requires
        0 <= i < bricks.len(),
    ensures
        covered_by_others(bricks.update(i, b), i, w, c) == covered_by_others(bricks, i, w, c),
{
    let after = bricks.update(i, b);
    if covered_by_others(bricks, i, w, c) {
        let j = choose|j: int| 0 <= j < bricks.len() && j != i && (#[trigger] bricks[j]).covers(w, c);
        assert(after[j].covers(w, c));
    }
    if covered_by_others(after, i, w, c) {
        let j = choose|j: int| 0 <= j < after.len() && j != i && (#[trigger] after[j]).covers(w, c);
        assert(bricks[j].covers(w, c));
    }
}

/// One step of one brick keeps a tidy grid tidy.
pub proof fn lemma_step_tidy(bricks: Seq<BrickView>, i: int, dir: Dir, w: int, h: int)
    requires
        w > 0,
        0 <= i < bricks.len(),
        tidy(bricks, w, h),
    ensures
        tidy(step_brick(bricks, i, dir, w, h), w, h),
{
    if can_step(bricks, i, dir, w, h) {
        let b = bricks[i];
        let moved = b.at(b.orig + step(dir, w));
        let after = bricks.update(i, moved);
        lemma_step_placed(b, dir, w, h);
        assert forall|j: int| 0 <= j < after.len() implies placed(#[trigger] after[j], w, h) by {
            if j != i {
                assert(placed(bricks[j], w, h));
            }
        }
        assert forall|a: int, k: int, j: int, l: int|
            0 <= a < after.len() && 0 <= k < after[a].dots.len() && 0 <= j < after.len() && 0 <= l
                < after[j].dots.len() && (a != j || k != l) implies #[trigger] after[a].cell(k, w)
            != #[trigger] after[j].cell(l, w) by {
            if a == i && j == i {
                assert(moved.cell(k, w) == b.cell(k, w) + step(dir, w));
                assert(moved.cell(l, w) == b.cell(l, w) + step(dir, w));
                assert(bricks[i].cell(k, w) != bricks[i].cell(l, w));
            } else if a == i {
                assert(moved.cell(k, w) == b.cell(k, w) + step(dir, w));
                assert(!covered_by_others(bricks, i, w, b.cell(k, w) + step(dir, w)));
                if moved.cell(k, w) == bricks[j].cell(l, w) {
                    assert(bricks[j].covers(w, moved.cell(k, w)));
                }
            } else if j == i {
                assert(moved.cell(l, w) == b.cell(l, w) + step(dir, w));
                assert(!covered_by_others(bricks, i, w, b.cell(l, w) + step(dir, w)));
                if moved.cell(l, w) == bricks[a].cell(k, w) {
                    assert(bricks[a].covers(w, moved.cell(l, w)));
                }
            } else {
                assert(bricks[a].cell(k, w) != bricks[j].cell(l, w));
            }
        }
    }
}

/// Two dots of a placed brick lie on different cells.
pub proof fn lemma_own_cells_differ(b: BrickView, k: int, l: int, w: int, h: int)
    requires
        w > 0,
        placed(b, w, h),
        0 <= k < b.dots.len(),
        0 <= l < b.dots.len(),
        k != l,
    ensures
        b.cell(k, w) != b.cell(l, w),
{
    assert(fits(b, k, w, h) && fits(b, l, w, h));
    lemma_cell_position(b, k, w, h);
    lemma_cell_position(b, l, w, h);
    assert(b.dots[k] != b.dots[l]);
}

/// A placed brick that lies on no covered cell can join a tidy grid.
pub proof fn lemma_push_tidy(bricks: Seq<BrickView>, b: BrickView, w: int, h: int)
    requires
        w > 0,
        tidy(bricks, w, h),
        placed(b, w, h),
        vacant(bricks, b, w),
    ensures
        tidy(bricks.push(b), w, h),
        forall|c: int| covered(bricks.push(b), w, c) <==> covered(bricks, w, c) || b.covers(w, c),
{
    let after = bricks.push(b);
    let n = bricks.len() as int;
    assert forall|i: int| 0 <= i < after.len() implies placed(#[trigger] after[i], w, h) by {
        if i < n {
            assert(placed(bricks[i], w, h));
        }
    }
    assert forall|i: int, k: int, j: int, l: int|
        0 <= i < after.len() && 0 <= k < after[i].dots.len() && 0 <= j < after.len() && 0 <= l
            < after[j].dots.len() && (i != j || k != l) implies #[trigger] after[i].cell(k, w)
        != #[trigger] after[j].cell(l, w) by {
        if i == n && j == n {
            lemma_own_cells_differ(b, k, l, w, h);
        } else if i == n {
            if b.cell(k, w) == bricks[j].cell(l, w) {
                assert(bricks[j].covers(w, b.cell(k, w)));
                assert(covered(bricks, w, b.cell(k, w)));
            }
        } else if j == n {
            if b.cell(l, w) == bricks[i].cell(k, w) {
                assert(bricks[i].covers(w, b.cell(l, w)));
                assert(covered(bricks, w, b.cell(l, w)));
            }
        } else {
            assert(bricks[i].cell(k, w) != bricks[j].cell(l, w));
        }
    }
    assert forall|c: int| covered(after, w, c) <==> covered(bricks, w, c) || b.covers(w, c) by {
        if covered(after, w, c) {
            let i = choose|i: int| 0 <= i < after.len() && (#[trigger] after[i]).covers(w, c);
            if i < n {
                assert(bricks[i].covers(w, c));
            }
        }
        if covered(bricks, w, c) {
            let i = choose|i: int| 0 <= i < bricks.len() && (#[trigger] bricks[i]).covers(w, c);
            assert(after[i].covers(w, c));
        }
        if b.covers(w, c) {
            assert(after[n].covers(w, c));
        }
    }
}

/// A tidy grid stays tidy without brick `i`, and then covers what the other
/// bricks covered.
pub proof fn lemma_remove_tidy(bricks: Seq<BrickView>, i: int, w: int, h: int)
    requires
        0 <= i < bricks.len(),
        tidy(bricks, w, h),
    ensures
        tidy(bricks.remove(i), w, h),
        forall|c: int| covered(bricks.remove(i), w, c) <==> covered_by_others(bricks, i, w, c),
{
    let after = bricks.remove(i);
    assert forall|j: int| 0 <= j < after.len() implies placed(#[trigger] after[j], w, h) by {
        if j < i {
            assert(placed(bricks[j], w, h));
        } else {
            assert(placed(bricks[j + 1], w, h));
        }
    }
    assert forall|a: int, k: int, j: int, l: int|
        0 <= a < after.len() && 0 <= k < after[a].dots.len() && 0 <= j < after.len() && 0 <= l
            < after[j].dots.len() && (a != j || k != l) implies #[trigger] after[a].cell(k, w)
        != #[trigger] after[j].cell(l, w) by {
        let a0 = if a < i {
            a
        } else {
            a + 1
        };
        let j0 = if j < i {
            j
        } else {
            j + 1
        };
        assert(bricks[a0].cell(k, w) != bricks[j0].cell(l, w));
    }
    assert forall|c: int| covered(after, w, c) <==> covered_by_others(bricks, i, w, c) by {
        if covered(after, w, c) {
            let j = choose|j: int| 0 <= j < after.len() && (#[trigger] after[j]).covers(w, c);
            let j0 = if j < i {
                j
            } else {
                j + 1
            };
            assert(bricks[j0].covers(w, c));
        }
        if covered_by_others(bricks, i, w, c) {
            let j = choose|j: int| 0 <= j < bricks.len() && j != i && (#[trigger] bricks[j]).covers(w, c);
            let j1 = if j < i {
                j
            } else {
                j - 1
            };
            assert(after[j1].covers(w, c));
        }
    }
}

/// One pass over the bricks from number `from` on: each in turn moves one
/// step towards `dir` if it then can.
pub open spec fn pass(bricks: Seq<BrickView>, from: int, dir: Dir, w: int, h: int) -> Seq<
    BrickView,
>
    decreases bricks.len() - from,
{
    if 0 <= from < bricks.len() {
        pass(step_brick(bricks, from, dir, w, h), from + 1, dir, w, h)
    } else {
        bricks
    }
}

/// How far the origin of `b` is from the end of the grid that `dir` leads to.
pub open spec fn gap(b: BrickView, dir: Dir, w: int, h: int) -> int {
    if dir.is_top_right() {
        w * h - b.orig
    } else {
        b.orig
    }
}

/// The sum of the gaps of all bricks: a bound on the steps still to come.
pub open spec fn room(bricks: Seq<BrickView>, dir: Dir, w: int, h: int) -> int
    decreases bricks.len(),
{
    if bricks.len() == 0 {
        0
    } else {
        room(bricks.drop_last(), dir, w, h) + gap(bricks.last(), dir, w, h)
    }
}

/// The slide towards `dir`: passes over all bricks, one after another, until
/// a pass moves none.
pub open spec fn slide(bricks: Seq<BrickView>, dir: Dir, w: int, h: int) -> Seq<BrickView>
    decreases room(bricks, dir, w, h),
    when w > 0 && tidy(bricks, w, h)
    via slide_decreases
{
    let next = pass(bricks, 0, dir, w, h);
    if next == bricks {
        bricks
    } else {
        slide(next, dir, w, h)
    }
}

#[via_fn]
proof fn slide_decreases(bricks: Seq<BrickView>, dir: Dir, w: int, h: int) {
    lemma_pass(bricks, 0, dir, w, h);
}

/// Replacing one brick changes the room by the change of its gap.
pub proof fn lemma_room_update(bricks: Seq<BrickView>, i: int, b: BrickView, dir: Dir, w: int, h: int)
    requires
        0 <= i < bricks.len(),
    ensures
        room(bricks.update(i, b), dir, w, h) == room(bricks, dir, w, h) - gap(bricks[i], dir, w, h)
            + gap(b, dir, w, h),
    decreases bricks.len(),
{
    let after = bricks.update(i, b);
    if i == bricks.len() - 1 {
        assert(after.drop_last() =~= bricks.drop_last());
    } else {
        lemma_room_update(bricks.drop_last(), i, b, dir, w, h);
        assert(after.drop_last() =~= bricks.drop_last().update(i, b));
    }
}

/// On a tidy grid every gap, and so the room, is at least 0.
pub proof fn lemma_room_bounds(bricks: Seq<BrickView>, dir: Dir, w: int, h: int)
    requires
        w > 0,
        forall|i: int| 0 <= i < bricks.len() ==> placed(#[trigger] bricks[i], w, h),
    ensures
        room(bricks, dir, w, h) >= 0,
    decreases bricks.len(),
{
    if bricks.len() > 0 {
        let b = bricks.last();
        assert(placed(b, w, h));
        assert(fits(b, 0, w, h));
        lemma_cell_position(b, 0, w, h);
        assert(b.dots[0].1 * w >= 0) by (nonlinear_arith)
            requires
                b.dots[0].1 >= 0,
                w > 0,
        ;
        assert forall|i: int| 0 <= i < bricks.drop_last().len() implies placed(
            #[trigger] bricks.drop_last()[i],
            w,
            h,
        ) by {
            assert(placed(bricks[i], w, h));
        }
        lemma_room_bounds(bricks.drop_last(), dir, w, h);
    }
}

/// One step of one brick never adds room, and takes some away where the brick moves.
pub proof fn lemma_step_room(bricks: Seq<BrickView>, i: int, dir: Dir, w: int, h: int)
    requires
        w > 0,
        0 <= i < bricks.len(),
        tidy(bricks, w, h),
    ensures
        room(step_brick(bricks, i, dir, w, h), dir, w, h) <= room(bricks, dir, w, h),
        can_step(bricks, i, dir, w, h) ==> room(step_brick(bricks, i, dir, w, h), dir, w, h) < room(
            bricks,
            dir,
            w,
            h,
        ),
        !can_step(bricks, i, dir, w, h) ==> step_brick(bricks, i, dir, w, h) == bricks,
{
    if can_step(bricks, i, dir, w, h) {
        lemma_room_update(bricks, i, bricks[i].at(bricks[i].orig + step(dir, w)), dir, w, h);
    }
}

/// What a pass from brick `from` on keeps and changes: the grid stays tidy,
/// every brick keeps its dots and its shape tag, the room does not grow, and
/// it shrinks unless no brick from `from` on could move.
pub proof fn lemma_pass(bricks: Seq<BrickView>, from: int, dir: Dir, w: int, h: int)
    requires
        w > 0,
        tidy(bricks, w, h),
        0 <= from <= bricks.len(),
    ensures
        pass(bricks, from, dir, w, h).len() == bricks.len(),
        tidy(pass(bricks, from, dir, w, h), w, h),
        forall|j: int|
            0 <= j < bricks.len() ==> (#[trigger] pass(bricks, from, dir, w, h)[j]).dots
                == bricks[j].dots && pass(bricks, from, dir, w, h)[j].shape == bricks[j].shape,
        0 <= room(pass(bricks, from, dir, w, h), dir, w, h) <= room(bricks, dir, w, h),
        pass(bricks, from, dir, w, h) != bricks ==> room(pass(bricks, from, dir, w, h), dir, w, h)
            < room(bricks, dir, w, h),
        pass(bricks, from, dir, w, h) == bricks ==> forall|j: int|
            from <= j < bricks.len() ==> !#[trigger] can_step(bricks, j, dir, w, h),
        forall|j: int|
            0 <= j < bricks.len() ==> headed(
                bricks[j],
                #[trigger] pass(bricks, from, dir, w, h)[j],
                dir,
                w,
            ),
    decreases bricks.len() - from,
{
    lemma_room_bounds(bricks, dir, w, h);
    if from < bricks.len() {
        let next = step_brick(bricks, from, dir, w, h);
        lemma_step_tidy(bricks, from, dir, w, h);
        lemma_step_room(bricks, from, dir, w, h);
        lemma_pass(next, from + 1, dir, w, h);
        let end = pass(bricks, from, dir, w, h);
        assert(end == pass(next, from + 1, dir, w, h));
        if can_step(bricks, from, dir, w, h) {
            assert(placed(bricks[from], w, h));
            lemma_step_placed(bricks[from], dir, w, h);
        }
        assert forall|j: int| 0 <= j < bricks.len() implies (#[trigger] end[j]).dots
            == bricks[j].dots && end[j].shape == bricks[j].shape && headed(
            bricks[j],
            end[j],
            dir,
            w,
        ) by {
            assert(next[j].dots == bricks[j].dots);
            assert(headed(bricks[j], next[j], dir, w));
            assert(headed(next[j], end[j], dir, w));
        }
        if end == bricks {
            assert(!can_step(bricks, from, dir, w, h));
            assert(next == bricks);
        }
    }
}

/// A slide keeps the grid tidy and every brick's dots and shape tag, and ends
/// where no brick can move a step further.
pub proof fn lemma_slide(bricks: Seq<BrickView>, dir: Dir, w: int, h: int)
    requires
        w > 0,
        tidy(bricks, w, h),
    ensures
        slide(bricks, dir, w, h).len() == bricks.len(),
        tidy(slide(bricks, dir, w, h), w, h),
        forall|j: int|
            0 <= j < bricks.len() ==> (#[trigger] slide(bricks, dir, w, h)[j]).dots
                == bricks[j].dots && slide(bricks, dir, w, h)[j].shape == bricks[j].shape,
        forall|j: int|
            0 <= j < bricks.len() ==> !#[trigger] can_step(slide(bricks, dir, w, h), j, dir, w, h),
        pass(slide(bricks, dir, w, h), 0, dir, w, h) == slide(bricks, dir, w, h),
        forall|j: int|
            0 <= j < bricks.len() ==> headed(bricks[j], #[trigger] slide(bricks, dir, w, h)[j], dir, w),
    decreases room(bricks, dir, w, h),
{
    lemma_pass(bricks, 0, dir, w, h);
    let next = pass(bricks, 0, dir, w, h);
    if next != bricks {
        lemma_slide(next, dir, w, h);
        assert forall|j: int| 0 <= j < bricks.len() implies (#[trigger] slide(
            bricks,
            dir,
            w,
            h,
        )[j]).dots == bricks[j].dots && slide(bricks, dir, w, h)[j].shape == bricks[j].shape
            && headed(bricks[j], slide(bricks, dir, w, h)[j], dir, w) by {
            assert(next[j].dots == bricks[j].dots);
            assert(headed(bricks[j], next[j], dir, w));
            assert(headed(next[j], slide(next, dir, w, h)[j], dir, w));
        }
    }
}

/// A brick alone on the board slides all the way to the edge: its origin
/// moves by as many steps as lie between the brick and that edge.
pub proof fn lemma_lone_brick_reaches_edge(b: BrickView, dir: Dir, w: int, h: int)
    requires
        w > 0,
        placed(b, w, h),
    ensures
        way(b, dir, w, h) >= 0,
        slide(seq![b], dir, w, h) == seq![b.at(b.orig + way(b, dir, w, h) * step(dir, w))],
{
    let bricks = seq![b];
    assert(tidy(bricks, w, h)) by {
        assert forall|i: int, k: int, j: int, l: int|
            0 <= i < bricks.len() && 0 <= k < bricks[i].dots.len() && 0 <= j < bricks.len() && 0
                <= l < bricks[j].dots.len() && (i != j || k != l) implies #[trigger] bricks[i].cell(
            k,
            w,
        ) != #[trigger] bricks[j].cell(l, w) by {
            lemma_own_cells_differ(b, k, l, w, h);
        }
    }
    lemma_slide(bricks, dir, w, h);
    let end = slide(bricks, dir, w, h);
    let r = end[0];
    assert(headed(bricks[0], r, dir, w));
    assert(placed(r, w, h));
    assert(!can_step(end, 0, dir, w, h));
    assert forall|c: int| !covered_by_others(end, 0, w, c) by {}
    assert(at_edge(r, dir, w, h));
    let k = choose|k: int| 0 <= k < r.dots.len() && on_edge(#[trigger] r.cell(k, w), dir, w, h);
    assert(fits(r, k, w, h));
    lemma_cell_position(r, k, w, h);
    crate::shapes::lemma_max_bounds(r.dots);
    crate::shapes::lemma_min_bounds(r.dots);
    let kx = choose|kx: int| 0 <= kx < r.dots.len() && (#[trigger] r.dots[kx]).0 == crate::shapes::max_dx(r.dots);
    let ky = choose|ky: int| 0 <= ky < r.dots.len() && (#[trigger] r.dots[ky]).1 == crate::shapes::max_dy(r.dots);
    let nx = choose|nx: int| 0 <= nx < r.dots.len() && (#[trigger] r.dots[nx]).0 == 0;
    let ny = choose|ny: int| 0 <= ny < r.dots.len() && (#[trigger] r.dots[ny]).1 == 0;
    assert(fits(r, kx, w, h) && fits(r, ky, w, h) && fits(r, nx, w, h) && fits(r, ny, w, h));
    assert(fits(b, kx, w, h) && fits(b, ky, w, h));
    lemma_fundamental_div_mod(b.orig, w);
    lemma_fundamental_div_mod(r.orig, w);
    let n = way(b, dir, w, h);
    assert(r.orig == b.orig + n * step(dir, w) && n >= 0) by (nonlinear_arith)
        requires
            b.orig == w * (b.orig / w) + b.orig % w,
            r.orig == w * (r.orig / w) + r.orig % w,
            w > 0,
            match dir {
                Dir::Up => r.orig % w == b.orig % w && r.orig / w >= b.orig / w && r.orig / w
                    == h - 1 - b.height() && n == h - 1 - (b.orig / w + b.height()) && step(dir, w)
                    == w,
                Dir::Down => r.orig % w == b.orig % w && r.orig / w == 0 && b.orig / w >= 0 && n
                    == b.orig / w && step(dir, w) == -w,
                Dir::Left => r.orig / w == b.orig / w && r.orig % w == 0 && b.orig % w >= 0 && n
                    == b.orig % w && step(dir, w) == -1,
                Dir::Right => r.orig / w == b.orig / w && r.orig % w >= b.orig % w && r.orig % w
                    == w - 1 - b.width() && n == w - 1 - (b.orig % w + b.width()) && step(dir, w)
                    == 1,
            },
    ;
    assert(end =~= seq![b.at(b.orig + n * step(dir, w))]);
}

/// On a grid that keeps the occupancy rule a cell is marked exactly where a
/// dot lies on it, and then it is one dot of one brick.
pub proof fn lemma_one_dot_per_cell(g: GridView, c: int)
    requires
        g.wf(),
        0 <= c < g.cells.len(),
    ensures
        g.cells[c] == 0 || g.cells[c] == 1,
        g.cells[c] == 1 <==> exists|i: int, k: int|
            0 <= i < g.bricks.len() && 0 <= k < g.bricks[i].dots.len() && #[trigger] g.bricks[i].cell(
                k,
                g.width,
            ) == c,
        forall|i: int, k: int, j: int, l: int|
            0 <= i < g.bricks.len() && 0 <= k < g.bricks[i].dots.len() && 0 <= j < g.bricks.len()
                && 0 <= l < g.bricks[j].dots.len() && #[trigger] g.bricks[i].cell(k, g.width) == c
                && #[trigger] g.bricks[j].cell(l, g.width) == c ==> i == j && k == l,
{
    let w = g.width;
    assert(g.cells[c] == mark(covered(g.bricks, w, c)));
    if covered(g.bricks, w, c) {
        let i = choose|i: int| 0 <= i < g.bricks.len() && (#[trigger] g.bricks[i]).covers(w, c);
        let k = choose|k: int| 0 <= k < g.bricks[i].dots.len() && #[trigger] g.bricks[i].cell(k, w) == c;
        assert(g.bricks[i].cell(k, w) == c);
    }
    if exists|i: int, k: int|
        0 <= i < g.bricks.len() && 0 <= k < g.bricks[i].dots.len() && #[trigger] g.bricks[i].cell(k, w)
            == c {
        let (i, k) = choose|i: int, k: int|
            0 <= i < g.bricks.len() && 0 <= k < g.bricks[i].dots.len() && #[trigger] g.bricks[i].cell(
                k,
                w,
            ) == c;
        assert(g.bricks[i].covers(w, c));
    }
}

/// Whether no dot of `brick` lies on a marked cell of `grid`.
pub fn can_occupy(grid: &Vec<Sq>, width: u8, brick: &Brick) -> (r: bool)
    requires
        within(grid@, brick@, width as int),
    ensures
        r == free_for(grid@, brick@, width as int),
{
    let mut k: usize = 0;
    while k < brick.0.len()
        invariant
            k <= brick.0@.len(),
            within(grid@, brick@, width as int),
            forall|j: int| 0 <= j < k ==> grid@[#[trigger] brick@.cell(j, width as int)] == 0,
        decreases brick.0@.len() - k,
    {
        let id = brick.0[k].to_idx(brick.1, width);
        assert(id == brick@.cell(k as int, width as int));
        if grid[id] > 0 {
            return false;
        }
        k += 1;
    }
    true
}

/// Writes `v` to every cell that a dot of `brick` lies on.
fn set_cells(grid: &mut Vec<Sq>, width: u8, brick: &Brick, v: Sq)
    requires
        within(old(grid)@, brick@, width as int),
    ensures
        final(grid)@ == marked(old(grid)@, brick@, width as int, v),
{
    let ghost before = grid@;
    let mut k: usize = 0;
    while k < brick.0.len()
        invariant
            k <= brick.0@.len(),
            grid@.len() == before.len(),
            within(before, brick@, width as int),
            forall|c: int|
                0 <= c < before.len() ==> #[trigger] grid@[c] == if exists|j: int|
                    0 <= j < k && #[trigger] brick@.cell(j, width as int) == c {
                    v
                } else {
                    before[c]
                },
        decreases brick.0@.len() - k,
    {
        let id = brick.0[k].to_idx(brick.1, width);
        assert(id == brick@.cell(k as int, width as int));
        let ghost prev = grid@;
        grid[id] = v;
        proof {
            assert forall|c: int| 0 <= c < before.len() implies #[trigger] grid@[c] == if exists|
                j: int,
            |
                0 <= j < k + 1 && #[trigger] brick@.cell(j, width as int) == c {
                v
            } else {
                before[c]
            } by {
                if c == id {
                    assert(brick@.cell(k as int, width as int) == c);
                } else {
                    assert(grid@[c] == prev[c]);
                    if exists|j: int| 0 <= j < k + 1 && #[trigger] brick@.cell(j, width as int) == c {
                        let j = choose|j: int|
                            0 <= j < k + 1 && #[trigger] brick@.cell(j, width as int) == c;
                        assert(j < k);
                    }
                }
            }
        }
        k += 1;
    }
    assert(grid@ =~= marked(before, brick@, width as int, v));
}

/// Marks the cells of `brick` if all of them are free, and says whether it did.
pub fn occupy(grid: &mut Vec<Sq>, width: u8, brick: &Brick) -> (r: bool)
    requires
        within(old(grid)@, brick@, width as int),
    ensures
        r == free_for(old(grid)@, brick@, width as int),
        r ==> final(grid)@ == marked(old(grid)@, brick@, width as int, 1),
        !r ==> final(grid)@ == old(grid)@,
{
    let can = can_occupy(grid, width, brick);
    if can {
        set_cells(grid, width, brick, 1);
    }
    can
}

/// What a grid is: its marks row after row, its bricks, and its size.
pub struct GridView {
    pub cells: Seq<Sq>,
    pub bricks: Seq<BrickView>,
    pub width: int,
    pub height: int,
}

/// The marks that the occupancy rule gives a grid of `w` by `h` cells with
/// these bricks: 1 where a dot lies, 0 elsewhere.
pub open spec fn occupancy(bricks: Seq<BrickView>, w: int, h: int) -> Seq<Sq> {
    Seq::new((w * h) as nat, |c: int| mark(covered(bricks, w, c)))
}

impl GridView {
    /// The occupancy rule: the bricks lie inside the grid, no two dots share a
    /// cell, and a cell is marked 1 exactly where a dot lies on it and is 0
    /// elsewhere.
    pub open spec fn wf(self) -> bool {
        &&& 0 < self.width <= u8::MAX
        &&& 0 <= self.height <= u8::MAX
        &&& self.cells.len() == self.width * self.height
        &&& tidy(self.bricks, self.width, self.height)
        &&& forall|c: int|
            0 <= c < self.cells.len() ==> #[trigger] self.cells[c] == mark(
                covered(self.bricks, self.width, c),
            )
    }

    /// The grid of `w` by `h` cells that holds `bricks`, marked by the
    /// occupancy rule.
    pub open spec fn of(bricks: Seq<BrickView>, w: int, h: int) -> GridView {
        GridView { cells: occupancy(bricks, w, h), bricks, width: w, height: h }
    }
}

/// A grid that keeps the occupancy rule is the grid that its bricks and its
/// size determine.
pub proof fn lemma_grid_of(g: GridView)
    requires
        g.wf(),
    ensures
        g == GridView::of(g.bricks, g.width, g.height),
{
    assert(g.width * g.height >= 0) by (nonlinear_arith)
        requires
            g.width > 0,
            g.height >= 0,
    ;
    assert(g.cells =~= occupancy(g.bricks, g.width, g.height));
}

/// A rectangle of cells with the bricks that lie on it.
#[derive(Debug, Clone)]
pub struct Grid {
    /// The marks, row after row.
    pub cells: Vec<Sq>,
    /// The bricks, their origins flat indices into `cells`.
    pub bricks: Vec<Brick>,
    /// Cells in a row.
    pub width: u8,
    /// Rows.
    pub height: u8,
}

impl View for Grid {
    type V = GridView;

    open spec fn view(&self) -> GridView {
        GridView {
            cells: self.cells@,
            bricks: views_of(self.bricks@),
            width: self.width as int,
            height: self.height as int,
        }
    }
}

impl Grid {
    /// The bricks as values.
    pub open spec fn views(&self) -> Seq<BrickView> {
        views_of(self.bricks@)
    }

    /// The grid keeps the occupancy rule.
    pub open spec fn wf(&self) -> bool {
        self@.wf()
    }

    /// A grid of `width` by `height` free cells, without bricks.
    pub fn new(width: u8, height: u8) -> (r: Grid)
        requires
            width > 0,
        ensures
            r.wf(),
            r.width == width,
            r.height == height,
            r.bricks@.len() == 0,
            forall|c: int| 0 <= c < r.cells@.len() ==> r.cells@[c] == 0,
    {
        assert(width * height <= 255 * 255) by (nonlinear_arith)
            requires
                width <= 255,
                height <= 255,
        ;
        let cells: Vec<Sq> = vec![0u8; width as usize * height as usize];
        let r = Grid { cells, bricks: Vec::new(), width, height };
        assert(r.views() =~= Seq::<BrickView>::empty());
        r
    }

    /// Whether a dot of brick `i` lies on the edge that a slide towards `dir` ends at.
    pub fn touches_edge(&self, i: usize, dir: Dir) -> (r: bool)
        requires
            self.wf(),
            i < self.bricks@.len(),
        ensures
            r == at_edge(self.views()[i as int], dir, self.width as int, self.height as int),
    {
        let w = self.width as usize;
        let h = self.height as usize;
        let brick = &self.bricks[i];
        let ghost b = self.views()[i as int];
        assert(b == brick@);
        assert(placed(b, w as int, h as int));
        let mut k: usize = 0;
        while k < brick.0.len()
            invariant
                k <= brick.0@.len(),
                brick@ == b,
                i < self.bricks@.len(),
                b == self.views()[i as int],
                w == self.width,
                h == self.height,
                w > 0,
                placed(b, w as int, h as int),
                forall|j: int| 0 <= j < k ==> !on_edge(#[trigger] b.cell(j, w as int), dir, w as int, h as int),
            decreases brick.0@.len() - k,
        {
            let id = brick.0[k].to_idx(brick.1, self.width);
            proof {
                assert(id == b.cell(k as int, w as int));
                assert(fits(b, k as int, w as int, h as int));
                lemma_cell_position(b, k as int, w as int, h as int);
            }
            let hit = match dir {
                Dir::Up => id / w == h - 1,
                Dir::Down => id / w == 0,
                Dir::Left => id % w == 0,
                Dir::Right => id % w == w - 1,
            };
            if hit {
                assert(on_edge(b.cell(k as int, w as int), dir, w as int, h as int));
                return true;
            }
            k += 1;
        }
        false
    }

    /// Every dot of every brick lies on a cell of the grid.
    pub proof fn lemma_bricks_within(&self)
        requires
            self.wf(),
        ensures
            forall|i: int|
                0 <= i < self.bricks@.len() ==> within(
                    self.cells@,
                    #[trigger] self.views()[i],
                    self.width as int,
                ),
    {
        assert forall|i: int| 0 <= i < self.bricks@.len() implies within(
            self.cells@,
            #[trigger] self.views()[i],
            self.width as int,
        ) by {
            let b = self.views()[i];
            assert(placed(b, self.width as int, self.height as int));
            assert forall|k: int| 0 <= k < b.dots.len() implies 0 <= #[trigger] b.cell(
                k,
                self.width as int,
            ) < self.cells@.len() by {
                assert(fits(b, k, self.width as int, self.height as int));
                lemma_cell_position(b, k, self.width as int, self.height as int);
            }
        }
    }

    /// Puts a copy of `brick` on the grid if all its cells are free, and says
    /// whether it did.
    pub fn put(&mut self, brick: &Brick) -> (r: bool)
        requires
            old(self).wf(),
            placed(brick@, old(self).width as int, old(self).height as int),
        ensures
            final(self).wf(),
            r == vacant(old(self).views(), brick@, old(self).width as int),
            r ==> final(self).views() == old(self).views().push(brick@),
            !r ==> final(self)@ == old(self)@,
            r ==> final(self)@.cells == marked(old(self)@.cells, brick@, old(self).width as int, 1),
            final(self).width == old(self).width,
            final(self).height == old(self).height,
    {
        let ghost w = self.width as int;
        let ghost h = self.height as int;
        let ghost bricks0 = self.views();
        let ghost cells0 = self.cells@;
        proof {
            assert forall|k: int| 0 <= k < brick@.dots.len() implies 0 <= #[trigger] brick@.cell(k, w)
                < cells0.len() by {
                assert(fits(brick@, k, w, h));
                lemma_cell_position(brick@, k, w, h);
            }
            assert(free_for(cells0, brick@, w) == vacant(bricks0, brick@, w)) by {
                if free_for(cells0, brick@, w) {
                    assert forall|k: int| 0 <= k < brick@.dots.len() implies !covered(
                        bricks0,
                        w,
                        #[trigger] brick@.cell(k, w),
                    ) by {
                        assert(cells0[brick@.cell(k, w)] == 0);
                    }
                }
                if vacant(bricks0, brick@, w) {
                    assert forall|k: int| 0 <= k < brick@.dots.len() implies cells0[#[trigger] brick@.cell(
                        k,
                        w,
                    )] == 0 by {
                        assert(!covered(bricks0, w, brick@.cell(k, w)));
                    }
                }
            }
        }
        let width = self.width;
        if occupy(&mut self.cells, width, brick) {
            self.bricks.push(brick.duplicate());
            proof {
                assert(self.views() =~= bricks0.push(brick@));
                lemma_push_tidy(bricks0, brick@, w, h);
            }
            true
        } else {
            assert(self.cells@ =~= cells0);
            false
        }
    }

    /// Takes brick `i` off the grid and hands it out.
    pub fn take_out(&mut self, i: usize) -> (r: Brick)
        requires
            old(self).wf(),
            i < old(self).bricks@.len(),
        ensures
            final(self).wf(),
            r@ == old(self).views()[i as int],
            final(self).views() == old(self).views().remove(i as int),
            final(self).width == old(self).width,
            final(self).height == old(self).height,
    {
        let ghost w = self.width as int;
        let ghost h = self.height as int;
        let ghost bricks0 = self.views();
        let ghost cells0 = self.cells@;
        proof {
            self.lemma_bricks_within();
            assert(within(cells0, bricks0[i as int], w));
            assert(self.bricks@[i as int]@ == bricks0[i as int]);
        }
        let width = self.width;
        set_cells(&mut self.cells, width, &self.bricks[i], 0);
        let r = self.bricks.remove(i);
        proof {
            assert(self.views() =~= bricks0.remove(i as int));
            lemma_remove_tidy(bricks0, i as int, w, h);
            assert forall|c: int| 0 <= c < self.cells@.len() implies #[trigger] self.cells@[c] == mark(
                covered(self.views(), w, c),
            ) by {
                lemma_covered_split(bricks0, i as int, w, c);
                assert(cells0[c] == mark(covered(bricks0, w, c)));
            }
        }
        r
    }

    /// Lifts brick `i` off the grid, moves it one step towards `dir` if the
    /// cells there are free, and puts it down again. Says whether it moved.
    pub fn try_step(&mut self, i: usize, dir: Dir) -> (moved: bool)
        requires
            old(self).wf(),
            old(self).width * old(self).height <= 256,
            i < old(self).bricks@.len(),
            !at_edge(
                old(self).views()[i as int],
                dir,
                old(self).width as int,
                old(self).height as int,
            ),
        ensures
            final(self).wf(),
            final(self).width == old(self).width,
            final(self).height == old(self).height,
            moved == can_step(
                old(self).views(),
                i as int,
                dir,
                old(self).width as int,
                old(self).height as int,
            ),
            final(self).views() == step_brick(
                old(self).views(),
                i as int,
                dir,
                old(self).width as int,
                old(self).height as int,
            ),
    {
        let width = self.width;
        let ghost w = self.width as int;
        let ghost h = self.height as int;
        let ghost bricks0 = self.views();
        let ghost cells0 = self.cells@;
        let ghost b = bricks0[i as int];
        let ghost to = b.at(b.orig + step(dir, w));
        proof {
            self.lemma_bricks_within();
            assert(within(cells0, b, w));
            assert(self.bricks@[i as int]@ == b);
        }
        set_cells(&mut self.cells, width, &self.bricks[i], 0);
        let ghost cells1 = self.cells@;
        proof {
            assert forall|c: int| 0 <= c < cells1.len() implies #[trigger] cells1[c] == mark(
                covered_by_others(bricks0, i as int, w, c),
            ) by {
                lemma_covered_split(bricks0, i as int, w, c);
                assert(cells0[c] == mark(covered(bricks0, w, c)));
            }
            lemma_step_placed(b, dir, w, h);
            assert(placed(b, w, h));
            assert forall|k: int| 0 <= k < to.dots.len() implies 0 <= #[trigger] to.cell(k, w)
                < cells1.len() by {
                assert(fits(to, k, w, h));
                lemma_cell_position(to, k, w, h);
            }
            assert(to.dots[0].1 * w >= 0) by (nonlinear_arith)
                requires
                    to.dots[0].1 >= 0,
                    w > 0,
            ;
            assert(to.cell(0, w) >= to.orig);
        }
        let o = self.bricks[i].1;
        let o2: u8 = match dir {
            Dir::Up => o + width,
            Dir::Down => o - width,
            Dir::Left => o - 1,
            Dir::Right => o + 1,
        };
        self.bricks[i].1 = o2;
        assert(self.bricks@[i as int]@ == to);
        let ok = can_occupy(&self.cells, width, &self.bricks[i]);
        proof {
            assert(ok == free_for(cells1, to, w));
            if ok {
                assert forall|k: int| 0 <= k < b.dots.len() implies !covered_by_others(
                    bricks0,
                    i as int,
                    w,
                    #[trigger] b.cell(k, w) + step(dir, w),
                ) by {
                    assert(to.cell(k, w) == b.cell(k, w) + step(dir, w));
                    assert(cells1[to.cell(k, w)] == 0);
                }
            } else {
                let k = choose|k: int| 0 <= k < to.dots.len() && cells1[#[trigger] to.cell(k, w)] != 0;
                assert(to.cell(k, w) == b.cell(k, w) + step(dir, w));
                assert(covered_by_others(bricks0, i as int, w, b.cell(k, w) + step(dir, w)));
            }
            assert(ok == can_step(bricks0, i as int, dir, w, h));
        }
        if !ok {
            self.bricks[i].1 = o;
            assert(self.bricks@[i as int]@ == b);
        }
        set_cells(&mut self.cells, width, &self.bricks[i], 1);
        proof {
            let bricks1 = self.views();
            let cells2 = self.cells@;
            if ok {
                assert(bricks1 =~= bricks0.update(i as int, to));
                lemma_step_tidy(bricks0, i as int, dir, w, h);
                assert forall|c: int| 0 <= c < cells2.len() implies #[trigger] cells2[c] == mark(
                    covered(bricks1, w, c),
                ) by {
                    lemma_covered_split(bricks1, i as int, w, c);
                    lemma_others_unchanged(bricks0, i as int, to, w, c);
                }
            } else {
                assert(bricks1 =~= bricks0);
                assert(cells2 =~= cells0) by {
                    assert forall|c: int| 0 <= c < cells2.len() implies cells2[c] == cells0[c] by {
                        lemma_covered_split(bricks0, i as int, w, c);
                        assert(cells0[c] == mark(covered(bricks0, w, c)));
                    }
                }
            }
        }
        ok
    }

    /// Slides all bricks towards `dir` as far as they go: pass after pass,
    /// each brick that does not touch that edge moves one step if the cells
    /// there are free, until a whole pass moves none.
    pub fn slide(&mut self, dir: Dir)
        requires
            old(self).wf(),
            old(self).width * old(self).height <= 256,
        ensures
            final(self).wf(),
            final(self).width == old(self).width,
            final(self).height == old(self).height,
            final(self).views() == slide(
                old(self).views(),
                dir,
                old(self).width as int,
                old(self).height as int,
            ),
    {
        let n = self.bricks.len();
        let mut settled: Vec<bool> = vec![false; n];
        let mut dirty = true;
        let ghost w = self.width as int;
        let ghost h = self.height as int;
        let ghost start = self.views();
        proof {
            lemma_room_bounds(self.views(), dir, w, h);
        }
        while dirty
            invariant
                self.wf(),
                self.width == w,
                self.height == h,
                w * h <= 256,
                self.bricks@.len() == n,
                settled@.len() == n,
                slide(self.views(), dir, w, h) == slide(start, dir, w, h),
                !dirty ==> pass(self.views(), 0, dir, w, h) == self.views(),
                forall|j: int|
                    0 <= j < n && #[trigger] settled@[j] ==> at_edge(self.views()[j], dir, w, h),
                room(self.views(), dir, w, h) >= 0,
            decreases room(self.views(), dir, w, h) + (if dirty { 1int } else { 0int }),
        {
            dirty = false;
            let ghost begin = self.views();
            let mut i: usize = 0;
            while i < n
                invariant
                    self.wf(),
                    self.width == w,
                    self.height == h,
                    w * h <= 256,
                    self.bricks@.len() == n,
                    settled@.len() == n,
                    i <= n,
                    tidy(begin, w, h),
                    begin.len() == n,
                    pass(self.views(), i as int, dir, w, h) == pass(begin, 0, dir, w, h),
                    !dirty ==> self.views() == begin,
                    dirty ==> room(self.views(), dir, w, h) < room(begin, dir, w, h),
                    forall|j: int|
                        0 <= j < n && #[trigger] settled@[j] ==> at_edge(
                            self.views()[j],
                            dir,
                            w,
                            h,
                        ),
                decreases n - i,
            {
                let ghost prev = self.views();
                proof {
                    lemma_step_room(prev, i as int, dir, w, h);
                }
                if !settled[i] {
                    if self.touches_edge(i, dir) {
                        settled[i] = true;
                    } else {
                        let moved = self.try_step(i, dir);
                        if moved {
                            dirty = true;
                        }
                        proof {
                            assert forall|j: int| 0 <= j < n && #[trigger] settled@[j] implies at_edge(
                                self.views()[j],
                                dir,
                                w,
                                h,
                            ) by {
                                assert(self.views()[j] == prev[j]);
                            }
                        }
                    }
                }
                assert(self.views() == step_brick(prev, i as int, dir, w, h));
                i += 1;
            }
            proof {
                lemma_pass(begin, 0, dir, w, h);
                lemma_room_bounds(self.views(), dir, w, h);
            }
        }
    }
}

} // verus!
