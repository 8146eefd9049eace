//! Cutting cells out of the bricks of a grid: what is left of each brick, and
//! why the grid still keeps the occupancy rule afterwards.

use crate::grid::{
    covered, fits, lemma_cell_position, lemma_own_cells_differ, lemma_push_tidy, mark, placed, tidy,
    vacant, Grid,
};
use crate::clusters::{
    adjacent, clusters, lemma_clusters, lemma_flatten_from, lemma_groups_differ,
    lemma_grouping_within, linked, touches_earlier,
};
use crate::shapes::{lemma_min_bounds, lemma_reshifted, views_of, Brick, BrickView, Dot};
use vstd::arithmetic::div_mod::{lemma_fundamental_div_mod, lemma_fundamental_div_mod_converse};
use vstd::prelude::*;

verus! {

/// Cell `c` is one of `ids`.
pub open spec fn listed(ids: Seq<usize>, c: int) -> bool {
    exists|j: int| 0 <= j < ids.len() && #[trigger] ids[j] as int == c
}

/// A dot of `b` lies on one of the cells `ids`.
pub open spec fn hit(b: BrickView, ids: Seq<usize>, w: int) -> bool {
    exists|j: int| 0 <= j < ids.len() && b.covers(w, #[trigger] ids[j] as int)
}

/// What the cut of the cells `ids` leaves of `b`: the brick itself where no
/// dot of it lies on those cells, and else the pieces of `BrickView::cut`,
/// the last of which stays in place of `b`.
pub open spec fn cut_of(b: BrickView, ids: Seq<usize>, w: int) -> Seq<BrickView> {
    if hit(b, ids, w) {
        b.cut(ids, w)
    } else {
        seq![b]
    }
}

/// Brick for brick, what the cut of the cells `ids` leaves.
pub open spec fn cuts(before: Seq<BrickView>, ids: Seq<usize>, w: int) -> Seq<Seq<BrickView>> {
    Seq::new(before.len(), |i: int| cut_of(before[i], ids, w))
}

/// The bricks that stay in their places: of each cut its last piece, unless
/// that piece is left without dots.
pub open spec fn survivors(cuts: Seq<Seq<BrickView>>) -> Seq<BrickView>
    decreases cuts.len(),
{
    if cuts.len() == 0 {
        Seq::empty()
    } else {
        let before = survivors(cuts.drop_last());
        if cuts.last().last().dots.len() > 0 {
            before.push(cuts.last().last())
        } else {
            before
        }
    }
}

/// The bricks that the cuts split off: of each cut all pieces but the last.
pub open spec fn spawned(cuts: Seq<Seq<BrickView>>) -> Seq<BrickView>
    decreases cuts.len(),
{
    if cuts.len() == 0 {
        Seq::empty()
    } else {
        spawned(cuts.drop_last()) + cuts.last().drop_last()
    }
}

/// The bricks `before` once the cells `ids` are cut out of them: each brick
/// is cut by itself; the bricks that are left with dots stay in their order,
/// and the pieces split off follow them, brick after brick.
pub open spec fn cleared_bricks(before: Seq<BrickView>, ids: Seq<usize>, w: int) -> Seq<BrickView> {
    survivors(cuts(before, ids, w)) + spawned(cuts(before, ids, w))
}

/// `cells` with 0 written to each of the cells `ids`.
pub open spec fn zeroed(cells: Seq<u8>, ids: Seq<usize>) -> Seq<u8> {
    Seq::new(
        cells.len(),
        |c: int|
            if listed(ids, c) {
                0u8
            } else {
                cells[c]
            },
    )
}

/// What is picked out of a sequence without repeats has no repeats.
proof fn lemma_filter_no_duplicates(s: Seq<Dot>, pred: spec_fn(Dot) -> bool)
    requires
        s.no_duplicates(),
    ensures
        s.filter(pred).no_duplicates(),
    decreases s.len(),
{
    reveal(Seq::filter);
    if s.len() > 0 {
        let front = s.drop_last();
        lemma_filter_no_duplicates(front, pred);
        if pred(s.last()) {
            let f = front.filter(pred);
            if f.contains(s.last()) {
                front.lemma_filter_contains_rev(pred, s.last());
                let i = choose|i: int| 0 <= i < front.len() && front[i] == s.last();
                assert(s[i] == s[s.len() - 1]);
            }
            assert forall|i: int, j: int|
                0 <= i < f.push(s.last()).len() && 0 <= j < f.push(s.last()).len() && i
                    != j implies f.push(s.last())[i] != f.push(s.last())[j] by {
                if i < f.len() && j < f.len() {
                } else if i < f.len() {
                    assert(f.contains(f[i]));
                } else {
                    assert(f.contains(f[j]));
                }
            }
        }
    }
}

/// A cluster of dots of a placed brick is, reshifted, a placed brick.
proof fn lemma_piece_placed(b: BrickView, dots: Seq<Dot>, w: int, h: int)
    requires
        w > 0,
        placed(b, w, h),
        dots.len() > 0,
        dots.no_duplicates(),
        linked(dots),
        forall|k: int| 0 <= k < dots.len() ==> b.dots.contains(#[trigger] dots[k]),
    ensures
        placed(BrickView { dots, orig: b.orig, shape: b.shape }.reshifted(w), w, h),
{
    let raw = BrickView { dots, orig: b.orig, shape: b.shape };
    let piece = raw.reshifted(w);
    let sx = crate::shapes::min_dx(dots);
    let sy = crate::shapes::min_dy(dots);
    let c0 = b.orig % w;
    let r0 = b.orig / w;
    lemma_reshifted(raw, w);
    lemma_min_bounds(dots);
    lemma_fundamental_div_mod(b.orig, w);
    assert(0 <= c0 < w && r0 >= 0) by (nonlinear_arith)
        requires
            b.orig >= 0,
            w > 0,
            c0 == b.orig % w,
            r0 == b.orig / w,
    ;
    assert forall|k: int| 0 <= k < dots.len() implies c0 + (#[trigger] dots[k]).0 < w && r0
        + dots[k].1 < h by {
        let k0 = choose|k0: int| 0 <= k0 < b.dots.len() && b.dots[k0] == dots[k];
        assert(fits(b, k0, w, h));
    }
    let kx = choose|k: int| 0 <= k < dots.len() && (#[trigger] dots[k]).0 == sx;
    let ky = choose|k: int| 0 <= k < dots.len() && (#[trigger] dots[k]).1 == sy;
    assert(c0 + dots[kx].0 < w && r0 + dots[ky].1 < h);
    assert(piece.orig == (r0 + sy) * w + (c0 + sx) && (r0 + sy) * w >= 0) by (nonlinear_arith)
        requires
            piece.orig == b.orig + sx + w * sy,
            b.orig == w * r0 + c0,
            r0 >= 0,
            sy >= 0,
            w > 0,
    ;
    lemma_fundamental_div_mod_converse(piece.orig, w, r0 + sy, c0 + sx);
    assert forall|k: int| 0 <= k < piece.dots.len() implies #[trigger] fits(piece, k, w, h) by {
        assert(c0 + dots[k].0 < w && r0 + dots[k].1 < h);
        assert(piece.dots[k].0 == dots[k].0 - sx);
    }
    assert forall|i: int, j: int|
        0 <= i < piece.dots.len() && 0 <= j < piece.dots.len() && i != j implies piece.dots[i]
        != piece.dots[j] by {
        assert(dots[i] != dots[j]);
        assert(piece.dots[i].0 == dots[i].0 - sx && piece.dots[j].0 == dots[j].0 - sx);
        assert(piece.dots[i].1 == dots[i].1 - sy && piece.dots[j].1 == dots[j].1 - sy);
    }
    assert forall|k: int| 1 <= k < piece.dots.len() implies #[trigger] touches_earlier(
        piece.dots,
        k,
    ) by {
        assert(touches_earlier(dots, k));
        let j = choose|j: int| 0 <= j < k && adjacent(#[trigger] dots[j], dots[k]);
        assert(piece.dots[j].0 == dots[j].0 - sx && piece.dots[k].0 == dots[k].0 - sx);
        assert(piece.dots[j].1 == dots[j].1 - sy && piece.dots[k].1 == dots[k].1 - sy);
        assert(adjacent(piece.dots[j], piece.dots[k]));
    }
}

/// What a cut leaves of a placed brick: at least one piece; every piece with
/// dots is a placed brick, and only the last piece can be without; the pieces
/// cover the cells of the brick that are not cut out, each by one dot of one
/// piece, and no others.
pub proof fn lemma_cut(b: BrickView, ids: Seq<usize>, w: int, h: int, pieces: Seq<BrickView>)
    requires
        0 < w <= u8::MAX,
        h <= u8::MAX,
        placed(b, w, h),
        pieces == cut_of(b, ids, w),
    ensures
        pieces.len() >= 1,
        forall|g: int|
            0 <= g < pieces.len() && (#[trigger] pieces[g]).dots.len() > 0 ==> placed(
                pieces[g],
                w,
                h,
            ),
        forall|g: int| 0 <= g < pieces.len() - 1 ==> (#[trigger] pieces[g]).dots.len() > 0,
        forall|g: int, c: int|
            0 <= g < pieces.len() && #[trigger] pieces[g].covers(w, c) ==> b.covers(w, c)
                && !listed(ids, c),
        forall|c: int|
            b.covers(w, c) && !listed(ids, c) ==> exists|g: int|
                0 <= g < pieces.len() && (#[trigger] pieces[g]).covers(w, c),
        forall|g: int, k: int, g2: int, k2: int|
            0 <= g < pieces.len() && 0 <= k < pieces[g].dots.len() && 0 <= g2 < pieces.len() && 0
                <= k2 < pieces[g2].dots.len() && (g != g2 || k != k2) ==> #[trigger] pieces[g].cell(
                k,
                w,
            ) != #[trigger] pieces[g2].cell(k2, w),
{
    if !hit(b, ids, w) {
        assert(pieces[0] == b);
        assert forall|g: int, c: int|
            0 <= g < pieces.len() && #[trigger] pieces[g].covers(w, c) implies b.covers(w, c)
            && !listed(ids, c) by {
            if listed(ids, c) {
                let j = choose|j: int| 0 <= j < ids.len() && #[trigger] ids[j] as int == c;
                assert(b.covers(w, ids[j] as int));
            }
        }
        assert forall|c: int| b.covers(w, c) && !listed(ids, c) implies exists|g: int|
            0 <= g < pieces.len() && (#[trigger] pieces[g]).covers(w, c) by {
            assert(pieces[0].covers(w, c));
        }
        assert forall|g: int, k: int, g2: int, k2: int|
            0 <= g < pieces.len() && 0 <= k < pieces[g].dots.len() && 0 <= g2 < pieces.len() && 0
                <= k2 < pieces[g2].dots.len() && (g != g2 || k != k2) implies #[trigger] pieces[g].cell(
            k,
            w,
        ) != #[trigger] pieces[g2].cell(k2, w) by {
            lemma_own_cells_differ(b, k, k2, w, h);
        }
    } else {
        let kept = b.dots_off(ids, w);
        let off = |d: Dot| !ids.contains((d.0 + d.1 * w + b.orig) as usize);
        let groups = clusters(kept);
        lemma_clusters(kept);
        lemma_grouping_within(groups, kept);
        lemma_filter_no_duplicates(b.dots, off);
        let flat = groups.flatten();
        assert(flat.no_duplicates()) by {
            kept.lemma_multiset_has_no_duplicates();
            flat.lemma_multiset_has_no_duplicates_conv();
        }
        // each dot of a cluster is a dot of the brick, off the cut cells
        assert forall|g: int, k: int|
            0 <= g < groups.len() && 0 <= k < groups[g].len() implies b.dots.contains(
            #[trigger] groups[g][k],
        ) && off(groups[g][k]) by {
            let d = groups[g][k];
            assert(kept.contains(d));
            b.dots.lemma_filter_contains_rev(off, d);
            let i = choose|i: int| 0 <= i < kept.len() && kept[i] == d;
            b.dots.lemma_filter_pred(off, i);
        }
        assert forall|g: int| 0 <= g < groups.len() implies (#[trigger] groups[g]).no_duplicates() by {
            assert forall|i: int, j: int|
                0 <= i < groups[g].len() && 0 <= j < groups[g].len() && i != j implies groups[g][i]
                != groups[g][j] by {
                lemma_groups_differ(groups, g, i, g, j);
            }
        }
        assert forall|g: int|
            0 <= g < pieces.len() && (#[trigger] pieces[g]).dots.len() > 0 implies placed(
            pieces[g],
            w,
            h,
        ) by {
            assert(linked(groups[g]));
            lemma_piece_placed(b, groups[g], w, h);
        }
        assert forall|g: int| 0 <= g < pieces.len() - 1 implies (#[trigger] pieces[g]).dots.len()
            > 0 by {
            assert(groups[g].len() > 0);
        }
        // the cells of the pieces are the cells of their dots in the brick
        assert forall|g: int, k: int|
            0 <= g < pieces.len() && 0 <= k < pieces[g].dots.len() implies #[trigger] pieces[g].cell(
            k,
            w,
        ) == groups[g][k].0 + groups[g][k].1 * w + b.orig by {
            lemma_reshifted(BrickView { dots: groups[g], orig: b.orig, shape: b.shape }, w);
        }
        assert forall|g: int, c: int|
            0 <= g < pieces.len() && #[trigger] pieces[g].covers(w, c) implies b.covers(w, c)
            && !listed(ids, c) by {
            let k = choose|k: int| 0 <= k < pieces[g].dots.len() && #[trigger] pieces[g].cell(k, w) == c;
            let d = groups[g][k];
            assert(b.dots.contains(d) && off(d));
            let k0 = choose|k0: int| 0 <= k0 < b.dots.len() && b.dots[k0] == d;
            assert(b.cell(k0, w) == c);
            assert(fits(b, k0, w, h));
            lemma_cell_position(b, k0, w, h);
            if listed(ids, c) {
                let j = choose|j: int| 0 <= j < ids.len() && #[trigger] ids[j] as int == c;
                assert(ids[j] == c as usize);
            }
        }
        assert forall|c: int| b.covers(w, c) && !listed(ids, c) implies exists|g: int|
            0 <= g < pieces.len() && (#[trigger] pieces[g]).covers(w, c) by {
            let k0 = choose|k0: int| 0 <= k0 < b.dots.len() && #[trigger] b.cell(k0, w) == c;
            let d = b.dots[k0];
            assert(fits(b, k0, w, h));
            lemma_cell_position(b, k0, w, h);
            assert(w * h <= 255 * 255) by (nonlinear_arith)
                requires
                    0 < w <= 255,
                    h <= 255,
                    0 < w * h,
            ;
            if ids.contains(c as usize) {
                let j = choose|j: int| 0 <= j < ids.len() && ids[j] == c as usize;
                assert(ids[j] as int == c);
            }
            assert(off(d));
            b.dots.lemma_filter_contains(off, k0);
            vstd::seq_lib::to_multiset_contains(kept, d);
            vstd::seq_lib::to_multiset_contains(flat, d);
            let at = lemma_flatten_from(groups, d);
            assert(pieces[at.0].cell(at.1, w) == c);
            assert(pieces[at.0].covers(w, c));
        }
        assert forall|g: int, k: int, g2: int, k2: int|
            0 <= g < pieces.len() && 0 <= k < pieces[g].dots.len() && 0 <= g2 < pieces.len() && 0
                <= k2 < pieces[g2].dots.len() && (g != g2 || k != k2) implies #[trigger] pieces[g].cell(
            k,
            w,
        ) != #[trigger] pieces[g2].cell(k2, w) by {
            lemma_groups_differ(groups, g, k, g2, k2);
            let d = groups[g][k];
            let d2 = groups[g2][k2];
            assert(b.dots.contains(d) && b.dots.contains(d2));
            let k0 = choose|k0: int| 0 <= k0 < b.dots.len() && b.dots[k0] == d;
            let k1 = choose|k1: int| 0 <= k1 < b.dots.len() && b.dots[k1] == d2;
            lemma_own_cells_differ(b, k0, k1, w, h);
            assert(pieces[g].cell(k, w) == b.cell(k0, w));
            assert(pieces[g2].cell(k2, w) == b.cell(k1, w));
        }
    }
}


/// A placed brick that lies on no covered cell can join a tidy grid at any
/// place among its bricks.
proof fn lemma_insert_tidy(bricks: Seq<BrickView>, pos: int, b: BrickView, w: int, h: int)
    requires
        w > 0,
        tidy(bricks, w, h),
        placed(b, w, h),
        vacant(bricks, b, w),
        0 <= pos <= bricks.len(),
    ensures
        tidy(bricks.insert(pos, b), w, h),
        forall|c: int| covered(bricks.insert(pos, b), w, c) <==> covered(bricks, w, c) || b.covers(w, c),
{
    let after = bricks.insert(pos, b);
    assert(after.len() == bricks.len() + 1);
    assert forall|i: int| 0 <= i < after.len() implies placed(#[trigger] after[i], w, h) by {
        if i < pos {
            assert(after[i] == bricks[i]);
        } else if i > pos {
            assert(after[i] == bricks[i - 1]);
        }
    }
    assert forall|i: int, k: int, j: int, l: int|
        0 <= i < after.len() && 0 <= k < after[i].dots.len() && 0 <= j < after.len() && 0 <= l
            < after[j].dots.len() && (i != j || k != l) implies #[trigger] after[i].cell(k, w)
        != #[trigger] after[j].cell(l, w) by {
        let i0 = if i < pos {
            i
        } else {
            i - 1
        };
        let j0 = if j < pos {
            j
        } else {
            j - 1
        };
        if i == pos && j == pos {
            lemma_own_cells_differ(b, k, l, w, h);
        } else if i == pos {
            assert(after[j] == bricks[j0]);
            if b.cell(k, w) == bricks[j0].cell(l, w) {
                assert(bricks[j0].covers(w, b.cell(k, w)));
                assert(covered(bricks, w, b.cell(k, w)));
            }
        } else if j == pos {
            assert(after[i] == bricks[i0]);
            if b.cell(l, w) == bricks[i0].cell(k, w) {
                assert(bricks[i0].covers(w, b.cell(l, w)));
                assert(covered(bricks, w, b.cell(l, w)));
            }
        } else {
            assert(after[i] == bricks[i0] && after[j] == bricks[j0]);
            assert(bricks[i0].cell(k, w) != bricks[j0].cell(l, w));
        }
    }
    assert forall|c: int| covered(after, w, c) <==> covered(bricks, w, c) || b.covers(w, c) by {
        if covered(after, w, c) {
            let i = choose|i: int| 0 <= i < after.len() && (#[trigger] after[i]).covers(w, c);
            if i < pos {
                assert(bricks[i].covers(w, c));
            } else if i > pos {
                assert(bricks[i - 1].covers(w, c));
            }
        }
        if covered(bricks, w, c) {
            let i = choose|i: int| 0 <= i < bricks.len() && (#[trigger] bricks[i]).covers(w, c);
            if i < pos {
                assert(after[i].covers(w, c));
            } else {
                assert(after[i + 1] == bricks[i]);
                assert(after[i + 1].covers(w, c));
            }
        }
        if b.covers(w, c) {
            assert(after[pos].covers(w, c));
        }
    }
}

/// The bricks `f` with the last piece of a cut at place `pos`, if it has
/// dots, and the first `m` of the other pieces at the end.
spec fn with_cut(f: Seq<BrickView>, pos: int, pieces: Seq<BrickView>, m: int) -> Seq<
    BrickView,
> {
    let base = if pieces.last().dots.len() > 0 {
        f.insert(pos, pieces.last())
    } else {
        f
    };
    base + pieces.drop_last().take(m)
}

/// The pieces that a cut leaves of a brick can take the place of the brick on
/// a tidy grid.
proof fn lemma_add_cut(
    f: Seq<BrickView>,
    pos: int,
    b: BrickView,
    ids: Seq<usize>,
    w: int,
    h: int,
    pieces: Seq<BrickView>,
    m: int,
)
    requires
        0 < w <= u8::MAX,
        h <= u8::MAX,
        tidy(f, w, h),
        0 <= pos <= f.len(),
        placed(b, w, h),
        pieces == cut_of(b, ids, w),
        forall|c: int| b.covers(w, c) ==> !covered(f, w, c),
        0 <= m <= pieces.len() - 1,
    ensures
        tidy(with_cut(f, pos, pieces, m), w, h),
        forall|c: int|
            covered(with_cut(f, pos, pieces, m), w, c) <==> covered(f, w, c) || pieces.last().covers(
                w,
                c,
            ) || exists|g: int| 0 <= g < m && (#[trigger] pieces[g]).covers(w, c),
    decreases m,
{
    lemma_cut(b, ids, w, h, pieces);
    let last = pieces.last();
    let n = pieces.len() as int;
    let base = if last.dots.len() > 0 {
        f.insert(pos, last)
    } else {
        f
    };
    if last.dots.len() > 0 {
        assert forall|k: int| 0 <= k < last.dots.len() implies !covered(
            f,
            w,
            #[trigger] last.cell(k, w),
        ) by {
            assert(pieces[n - 1].covers(w, last.cell(k, w)));
        }
        lemma_insert_tidy(f, pos, last, w, h);
    } else {
        assert forall|c: int| !last.covers(w, c) by {}
    }
    if m == 0 {
        assert(with_cut(f, pos, pieces, m) =~= base);
    } else {
        lemma_add_cut(f, pos, b, ids, w, h, pieces, m - 1);
        let prev = with_cut(f, pos, pieces, m - 1);
        let p = pieces[m - 1];
        assert(with_cut(f, pos, pieces, m) =~= prev.push(p));
        assert(p.dots.len() > 0);
        assert(placed(p, w, h));
        assert forall|k: int| 0 <= k < p.dots.len() implies !covered(prev, w, #[trigger] p.cell(k, w)) by {
            let c = p.cell(k, w);
            assert(pieces[m - 1].covers(w, c));
            assert(b.covers(w, c));
            if last.covers(w, c) {
                let k2 = choose|k2: int| 0 <= k2 < last.dots.len() && #[trigger] last.cell(k2, w) == c;
                assert(pieces[n - 1].cell(k2, w) != pieces[m - 1].cell(k, w));
            }
            if exists|g: int| 0 <= g < m - 1 && (#[trigger] pieces[g]).covers(w, c) {
                let g = choose|g: int| 0 <= g < m - 1 && (#[trigger] pieces[g]).covers(w, c);
                let k2 = choose|k2: int| 0 <= k2 < pieces[g].dots.len() && #[trigger] pieces[g].cell(k2, w) == c;
                assert(pieces[g].cell(k2, w) != pieces[m - 1].cell(k, w));
            }
        }
        lemma_push_tidy(prev, p, w, h);
        assert forall|c: int|
            covered(with_cut(f, pos, pieces, m), w, c) <==> covered(f, w, c) || pieces.last().covers(
                w,
                c,
            ) || exists|g: int| 0 <= g < m && (#[trigger] pieces[g]).covers(w, c) by {
            if exists|g: int| 0 <= g < m - 1 && (#[trigger] pieces[g]).covers(w, c) {
                let g = choose|g: int| 0 <= g < m - 1 && (#[trigger] pieces[g]).covers(w, c);
                assert(0 <= g < m && pieces[g].covers(w, c));
            }
            if p.covers(w, c) {
                assert(pieces[m - 1].covers(w, c));
            }
            if exists|g: int| 0 <= g < m && (#[trigger] pieces[g]).covers(w, c) {
                let g = choose|g: int| 0 <= g < m && (#[trigger] pieces[g]).covers(w, c);
                if g < m - 1 {
                    assert(pieces[g].covers(w, c));
                }
            }
        }
    }
}

/// Cutting cells out of the bricks of a tidy grid leaves a tidy grid, whose
/// bricks cover the cells that were covered and are not cut out.
pub proof fn lemma_clearing(before: Seq<BrickView>, ids: Seq<usize>, w: int, h: int)
    requires
        0 < w <= u8::MAX,
        h <= u8::MAX,
        tidy(before, w, h),
    ensures
        tidy(cleared_bricks(before, ids, w), w, h),
        forall|c: int|
            #![trigger covered(cleared_bricks(before, ids, w), w, c)]
            covered(cleared_bricks(before, ids, w), w, c) <==> covered(before, w, c) && !listed(
                ids,
                c,
            ),
{
    let all = cuts(before, ids, w);
    let n = before.len() as int;
    lemma_clearing_upto(before, ids, w, h, all, n);
    assert(all.take(n) =~= all);
    assert(before.take(n) =~= before);
}

proof fn lemma_clearing_upto(
    before: Seq<BrickView>,
    ids: Seq<usize>,
    w: int,
    h: int,
    cuts: Seq<Seq<BrickView>>,
    n: int,
)
    requires
        0 < w <= u8::MAX,
        h <= u8::MAX,
        tidy(before, w, h),
        cuts == crate::cut::cuts(before, ids, w),
        0 <= n <= before.len(),
    ensures
        tidy(survivors(cuts.take(n)) + spawned(cuts.take(n)), w, h),
        forall|c: int|
            #![trigger covered(survivors(cuts.take(n)) + spawned(cuts.take(n)), w, c)]
            covered(survivors(cuts.take(n)) + spawned(cuts.take(n)), w, c) <==> covered(
                before.take(n),
                w,
                c,
            ) && !listed(ids, c),
    decreases n,
{
    if n == 0 {
        let f0 = survivors(cuts.take(0)) + spawned(cuts.take(0));
        assert(cuts.take(0) =~= Seq::<Seq<BrickView>>::empty());
        assert(f0 =~= Seq::<BrickView>::empty());
        assert forall|c: int| #![trigger covered(f0, w, c)]
            covered(f0, w, c) <==> covered(before.take(0), w, c) && !listed(ids, c) by {
            assert(!covered(f0, w, c));
            assert(!covered(before.take(0), w, c));
        }
    } else {
        lemma_clearing_upto(before, ids, w, h, cuts, n - 1);
        let b = before[n - 1];
        let pieces = cuts[n - 1];
        let s = survivors(cuts.take(n - 1));
        let p = spawned(cuts.take(n - 1));
        let f = s + p;
        assert(cuts.take(n).drop_last() =~= cuts.take(n - 1));
        assert(cuts.take(n).last() == pieces);
        assert(pieces == cut_of(b, ids, w));
        assert(placed(b, w, h));
        lemma_cut(b, ids, w, h, pieces);
        let m = pieces.len() - 1;
        assert forall|c: int| b.covers(w, c) implies !covered(f, w, c) by {
            if covered(f, w, c) {
                assert(covered(before.take(n - 1), w, c));
                let i = choose|i: int|
                    0 <= i < before.take(n - 1).len() && (#[trigger] before.take(n - 1)[i]).covers(w, c);
                assert(before.take(n - 1)[i] == before[i]);
                let k = choose|k: int| 0 <= k < before[i].dots.len() && #[trigger] before[i].cell(k, w) == c;
                let l = choose|l: int| 0 <= l < b.dots.len() && #[trigger] b.cell(l, w) == c;
                assert(before[i].cell(k, w) != before[n - 1].cell(l, w));
            }
        }
        lemma_add_cut(f, s.len() as int, b, ids, w, h, pieces, m);
        let f2 = survivors(cuts.take(n)) + spawned(cuts.take(n));
        assert(pieces.drop_last().take(m) =~= pieces.drop_last());
        assert(f2 =~= with_cut(f, s.len() as int, pieces, m));
        assert forall|c: int| #![trigger covered(f2, w, c)]
            covered(f2, w, c) <==> covered(before.take(n), w, c) && !listed(ids, c) by {
            let in_f = covered(f, w, c);
            let in_last = pieces.last().covers(w, c);
            let in_rest = exists|g: int| 0 <= g < m && (#[trigger] pieces[g]).covers(w, c);
            assert(covered(f2, w, c) <==> in_f || in_last || in_rest);
            assert(in_f <==> covered(before.take(n - 1), w, c) && !listed(ids, c));
            if in_f {
                let i = choose|i: int|
                    0 <= i < before.take(n - 1).len() && (#[trigger] before.take(n - 1)[i]).covers(w, c);
                assert(before.take(n)[i] == before.take(n - 1)[i]);
                assert(before.take(n)[i].covers(w, c));
            }
            if in_last {
                assert(pieces[m].covers(w, c));
                assert(b.covers(w, c) && !listed(ids, c));
            }
            if in_rest {
                let g = choose|g: int| 0 <= g < m && (#[trigger] pieces[g]).covers(w, c);
                assert(pieces[g].covers(w, c));
                assert(b.covers(w, c) && !listed(ids, c));
            }
            if b.covers(w, c) {
                assert(before.take(n)[n - 1] == b);
                assert(before.take(n)[n - 1].covers(w, c));
            }
            if covered(before.take(n), w, c) && !listed(ids, c) {
                let i = choose|i: int|
                    0 <= i < before.take(n).len() && (#[trigger] before.take(n)[i]).covers(w, c);
                if i < n - 1 {
                    assert(before.take(n - 1)[i] == before.take(n)[i]);
                    assert(before.take(n - 1)[i].covers(w, c));
                    assert(in_f);
                } else {
                    assert(before.take(n)[i] == b);
                    let g = choose|g: int| 0 <= g < pieces.len() && (#[trigger] pieces[g]).covers(w, c);
                    if g == m {
                        assert(in_last);
                    } else {
                        assert(0 <= g < m && pieces[g].covers(w, c));
                        assert(in_rest);
                    }
                }
            }
        }
    }
}

/// Where no brick is hit, the cut leaves the bricks as they are.
pub proof fn lemma_nothing_cut(before: Seq<BrickView>, ids: Seq<usize>, w: int)
    requires
        forall|i: int| 0 <= i < before.len() ==> !hit(#[trigger] before[i], ids, w),
        forall|i: int| 0 <= i < before.len() ==> (#[trigger] before[i]).dots.len() > 0,
    ensures
        cleared_bricks(before, ids, w) == before,
{
    let all = cuts(before, ids, w);
    lemma_whole(before, all, before.len() as int);
    assert(all.take(before.len() as int) =~= all);
    assert(before.take(before.len() as int) =~= before);
    assert(survivors(all) + spawned(all) =~= before);
}

/// Bricks that are their own cuts all survive, and nothing is split off.
proof fn lemma_whole(before: Seq<BrickView>, cuts: Seq<Seq<BrickView>>, n: int)
    requires
        cuts.len() == before.len(),
        forall|i: int| 0 <= i < before.len() ==> #[trigger] cuts[i] == seq![before[i]],
        forall|i: int| 0 <= i < before.len() ==> (#[trigger] before[i]).dots.len() > 0,
        0 <= n <= before.len(),
    ensures
        survivors(cuts.take(n)) == before.take(n),
        spawned(cuts.take(n)) == Seq::<BrickView>::empty(),
    decreases n,
{
    if n == 0 {
        assert(cuts.take(0) =~= Seq::<Seq<BrickView>>::empty());
        assert(before.take(0) =~= Seq::<BrickView>::empty());
    } else {
        lemma_whole(before, cuts, n - 1);
        assert(cuts.take(n).drop_last() =~= cuts.take(n - 1));
        assert(cuts.take(n).last() == cuts[n - 1]);
        assert(cuts[n - 1] == seq![before[n - 1]]);
        assert(cuts[n - 1].last() == before[n - 1]);
        assert(cuts[n - 1].drop_last() =~= Seq::<BrickView>::empty());
        assert(before.take(n) =~= before.take(n - 1).push(before[n - 1]));
        assert(spawned(cuts.take(n)) =~= Seq::<BrickView>::empty());
    }
}


impl Grid {
    /// Cuts the cells `ids` out of the grid: every brick with a dot on one of
    /// them is cut as `Brick::cut_at` cuts it, bricks left without dots leave
    /// the grid, the pieces split off join it behind the other bricks, and the
    /// cells are marked free.
    pub fn clear(&mut self, ids: &[usize])
        requires
            old(self).wf(),
            old(self).width * old(self).height <= 256,
            forall|j: int| 0 <= j < ids@.len() ==> ids@[j] < old(self)@.cells.len(),
        ensures
            final(self).wf(),
            final(self).width == old(self).width,
            final(self).height == old(self).height,
            final(self)@.bricks == cleared_bricks(old(self)@.bricks, ids@, old(self)@.width),
            final(self)@.cells == zeroed(old(self)@.cells, ids@),
    {
        let width = self.width;
        let ghost w = self.width as int;
        let ghost h = self.height as int;
        let ghost before = self.views();
        let ghost cells0 = self.cells@;
        let n = self.bricks.len();
        let mut kept: Vec<Brick> = Vec::new();
        let mut pieces: Vec<Brick> = Vec::new();
        let ghost mut cuts: Seq<Seq<BrickView>> = Seq::empty();
        let mut i: usize = 0;
        proof {
            self.lemma_bricks_within();
        }
        while i < n
            invariant
                self.wf(),
                self.views() == before,
                self.cells@ == cells0,
                width == w,
                self.width == w,
                self.height == h,
                w * h <= 256,
                n == before.len(),
                i <= n,
                cuts.len() == i,
                forall|j: int| 0 <= j < i ==> #[trigger] cuts[j] == cut_of(before[j], ids@, w),
                views_of(kept@) == survivors(cuts),
                views_of(pieces@) == spawned(cuts),
                forall|j: int| 0 <= j < n ==> crate::grid::within(cells0, #[trigger] before[j], w),
            decreases n - i,
        {
            let mut b = self.bricks[i].duplicate();
            let ghost whole = before[i as int];
            let ghost found: Seq<BrickView>;
            assert(b@ == whole);
            assert(placed(whole, w, h));
            assert(crate::grid::within(cells0, whole, w));
            if b.contains_any(ids, width) {
                let mut rest = b.cut_at(ids, width);
                proof {
                    found = views_of(rest@).push(b@);
                    assert(hit(whole, ids@, w));
                    assert(views_of(pieces@ + rest@) =~= views_of(pieces@) + views_of(rest@));
                    assert(found.drop_last() =~= views_of(rest@));
                }
                pieces.append(&mut rest);
            } else {
                proof {
                    found = seq![whole];
                    assert(!hit(whole, ids@, w));
                    assert(found.drop_last() =~= Seq::<BrickView>::empty());
                    assert(views_of(pieces@) + found.drop_last() =~= views_of(pieces@));
                }
            }
            assert(found.last() == b@);
            let ghost kept0 = kept@;
            if b.0.len() > 0 {
                kept.push(b);
                assert(views_of(kept@) =~= views_of(kept0).push(found.last()));
            }
            proof {
                let next = cuts.push(found);
                assert(next.drop_last() =~= cuts);
                assert(next.last() == found);
                cuts = next;
            }
            i += 1;
        }
        proof {
            assert(cuts =~= crate::cut::cuts(before, ids@, w));
            lemma_clearing(before, ids@, w, h);
            assert(views_of(kept@ + pieces@) =~= views_of(kept@) + views_of(pieces@));
        }
        kept.append(&mut pieces);
        self.bricks = kept;
        let ghost after = self.views();
        assert(after == survivors(cuts) + spawned(cuts));
        let mut j: usize = 0;
        while j < ids.len()
            invariant
                j <= ids@.len(),
                self.cells@.len() == cells0.len(),
                forall|c: int| 0 <= c < cells0.len() ==> #[trigger] cells0[c] <= 1,
                forall|k: int| 0 <= k < ids@.len() ==> ids@[k] < cells0.len(),
                forall|c: int|
                    0 <= c < cells0.len() ==> #[trigger] self.cells@[c] == if listed(
                        ids@.take(j as int),
                        c,
                    ) {
                        0u8
                    } else {
                        cells0[c]
                    },
                self.views() == after,
                self.width == w,
                self.height == h,
            decreases ids@.len() - j,
        {
            let id = ids[j];
            let ghost prev = self.cells@;
            self.cells[id] = self.cells[id].saturating_sub(1);
            proof {
                let now = ids@.take(j + 1);
                let was = ids@.take(j as int);
                assert(now =~= was.push(id));
                assert forall|c: int| 0 <= c < cells0.len() implies #[trigger] self.cells@[c]
                    == if listed(now, c) {
                    0u8
                } else {
                    cells0[c]
                } by {
                    if listed(now, c) {
                        let k = choose|k: int| 0 <= k < now.len() && #[trigger] now[k] as int == c;
                        if k < was.len() {
                            assert(was[k] as int == c);
                        }
                    }
                    if listed(was, c) {
                        let k = choose|k: int| 0 <= k < was.len() && #[trigger] was[k] as int == c;
                        assert(now[k] as int == c);
                    }
                    if c == id {
                        assert(now[j as int] as int == c);
                    } else {
                        assert(self.cells@[c] == prev[c]);
                    }
                }
            }
            j += 1;
        }
        proof {
            assert(ids@.take(j as int) =~= ids@);
            assert(self.cells@ =~= zeroed(cells0, ids@));
            assert forall|c: int| 0 <= c < self.cells@.len() implies #[trigger] self.cells@[c] == mark(
                covered(after, w, c),
            ) by {
                assert(cells0[c] == mark(covered(before, w, c)));
            }
        }
    }
}

} // verus!
