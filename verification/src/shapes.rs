//! Brick geometry: shapes, directions, dots and the bricks made of them.

use crate::clusters::{
    adjacent, clusters, clusters_of, lemma_grouping_within, linked, touches_earlier,
};
use vstd::prelude::*;

verus! {

/// The kind of polyomino a brick was made from.
#[derive(Debug, Clone, Copy, Hash, PartialEq, Eq, Structural)]
pub enum Shape {
    L,
    S,
    I,
    O,
    T,
    Z,
}

impl Default for Shape {
    fn default() -> (r: Self)
        ensures
            r == Shape::L,
    {
        Shape::L
    }
}

/// A board edge, and the direction of a slide towards it.
///
/// `Up` and `Right` lead to higher cell indices, `Down` and `Left` to lower ones.
#[derive(Debug, Clone, Copy, Hash, PartialEq, Eq, Structural)]
pub enum Dir {
    Up,
    Right,
    Down,
    Left,
}

impl Default for Dir {
    fn default() -> (r: Self)
        ensures
            r == Dir::Up,
    {
        Dir::Up
    }
}

impl Dir {
    pub open spec fn spec_opp(&self) -> Dir {
        match *self {
            Dir::Up => Dir::Down,
            Dir::Down => Dir::Up,
            Dir::Left => Dir::Right,
            Dir::Right => Dir::Left,
        }
    }

    /// The facing edge.
    #[verifier::when_used_as_spec(spec_opp)]
    pub fn opp(&self) -> (r: Dir)
        ensures
            r == self.spec_opp(),
    {
        match self {
            Dir::Up => Dir::Down,
            Dir::Down => Dir::Up,
            Dir::Left => Dir::Right,
            Dir::Right => Dir::Left,
        }
    }

    pub open spec fn spec_turn(&self) -> Dir {
        match *self {
            Dir::Up => Dir::Right,
            Dir::Right => Dir::Down,
            Dir::Down => Dir::Left,
            Dir::Left => Dir::Up,
        }
    }

    /// The next edge clockwise.
    #[verifier::when_used_as_spec(spec_turn)]
    pub fn turn(&self) -> (r: Dir)
        ensures
            r == self.spec_turn(),
    {
        match self {
            Dir::Up => Dir::Right,
            Dir::Right => Dir::Down,
            Dir::Down => Dir::Left,
            Dir::Left => Dir::Up,
        }
    }

    pub open spec fn spec_is_top_right(&self) -> bool {
        *self == Dir::Right || *self == Dir::Up
    }

    /// Whether a slide this way raises cell indices.
    #[verifier::when_used_as_spec(spec_is_top_right)]
    pub fn is_top_right(&self) -> (r: bool)
        ensures
            r == self.spec_is_top_right(),
    {
        match self {
            Dir::Right | Dir::Up => true,
            Dir::Left | Dir::Down => false,
        }
    }

    pub open spec fn spec_is_horizontal(self) -> bool {
        self == Dir::Right || self == Dir::Left
    }

    /// Whether a slide this way runs along a row.
    #[verifier::when_used_as_spec(spec_is_horizontal)]
    pub fn is_horizontal(self) -> (r: bool)
        ensures
            r == self.spec_is_horizontal(),
    {
        match self {
            Dir::Right | Dir::Left => true,
            Dir::Up | Dir::Down => false,
        }
    }

    pub open spec fn spec_if_tr<T>(&self, y: T, n: T) -> T {
        if self.is_top_right() {
            y
        } else {
            n
        }
    }

    /// `y` for `Up` and `Right`, `n` otherwise.
    #[verifier::when_used_as_spec(spec_if_tr)]
    pub fn if_tr<T>(&self, y: T, n: T) -> (r: T)
        ensures
            r == self.spec_if_tr(y, n),
    {
        if self.is_top_right() {
            y
        } else {
            n
        }
    }

    pub open spec fn spec_if_h<T>(&self, y: T, n: T) -> T {
        if self.is_horizontal() {
            y
        } else {
            n
        }
    }

    /// `y` for `Left` and `Right`, `n` otherwise.
    #[verifier::when_used_as_spec(spec_if_h)]
    pub fn if_h<T>(&self, y: T, n: T) -> (r: T)
        ensures
            r == self.spec_if_h(y, n),
    {
        if self.is_horizontal() {
            y
        } else {
            n
        }
    }
}

/// One cell of a brick, as an offset `(dx, dy)` from the brick's origin.
#[derive(Debug, Clone, Copy, Default, PartialEq, Eq, Structural)]
pub struct Dot(pub u8, pub u8);

impl Dot {
    /// The flat index of this dot in a grid whose rows hold `width` cells,
    /// for a brick whose origin is at `orig`.
    pub open spec fn spec_to_idx(self, orig: u8, width: u8) -> usize {
        (self.0 + self.1 * width + orig) as usize
    }

    #[verifier::when_used_as_spec(spec_to_idx)]
    pub fn to_idx(self, orig: u8, width: u8) -> (r: usize)
        ensures
            r == self.0 + self.1 * width + orig,
            r == self.spec_to_idx(orig, width),
    {
        assert(self.1 * width <= 255 * 255) by (nonlinear_arith)
            requires
                self.1 <= 255,
                width <= 255,
        ;
        self.0 as usize + self.1 as usize * width as usize + orig as usize
    }
}

/// The largest `dx` among the dots, 0 where there is none.
pub open spec fn max_dx(dots: Seq<Dot>) -> int
    decreases dots.len(),
{
    if dots.len() == 0 {
        0
    } else {
        let m = max_dx(dots.drop_last());
        if dots.last().0 > m {
            dots.last().0 as int
        } else {
            m
        }
    }
}

/// The largest `dy` among the dots, 0 where there is none.
pub open spec fn max_dy(dots: Seq<Dot>) -> int
    decreases dots.len(),
{
    if dots.len() == 0 {
        0
    } else {
        let m = max_dy(dots.drop_last());
        if dots.last().1 > m {
            dots.last().1 as int
        } else {
            m
        }
    }
}

/// The smallest `dx` among the dots, 0 where there is none.
pub open spec fn min_dx(dots: Seq<Dot>) -> int
    decreases dots.len(),
{
    if dots.len() == 0 {
        0
    } else if dots.len() == 1 {
        dots[0].0 as int
    } else {
        let m = min_dx(dots.drop_last());
        if dots.last().0 < m {
            dots.last().0 as int
        } else {
            m
        }
    }
}

/// The smallest `dy` among the dots, 0 where there is none.
pub open spec fn min_dy(dots: Seq<Dot>) -> int
    decreases dots.len(),
{
    if dots.len() == 0 {
        0
    } else if dots.len() == 1 {
        dots[0].1 as int
    } else {
        let m = min_dy(dots.drop_last());
        if dots.last().1 < m {
            dots.last().1 as int
        } else {
            m
        }
    }
}

/// `max_dx` and `max_dy` bound every dot and, where there is a dot, are reached by one.
pub proof fn lemma_max_bounds(dots: Seq<Dot>)
    ensures
        forall|k: int| 0 <= k < dots.len() ==> (#[trigger] dots[k]).0 <= max_dx(dots),
        forall|k: int| 0 <= k < dots.len() ==> (#[trigger] dots[k]).1 <= max_dy(dots),
        0 <= max_dx(dots) <= 255,
        0 <= max_dy(dots) <= 255,
        dots.len() > 0 ==> exists|k: int| 0 <= k < dots.len() && (#[trigger] dots[k]).0 == max_dx(dots),
        dots.len() > 0 ==> exists|k: int| 0 <= k < dots.len() && (#[trigger] dots[k]).1 == max_dy(dots),
    decreases dots.len(),
{
    if dots.len() > 0 {
        let front = dots.drop_last();
        lemma_max_bounds(front);
        assert forall|k: int| 0 <= k < dots.len() implies (#[trigger] dots[k]).0 <= max_dx(dots) by {
            if k < front.len() {
                assert(dots[k] == front[k]);
            }
        }
        assert forall|k: int| 0 <= k < dots.len() implies (#[trigger] dots[k]).1 <= max_dy(dots) by {
            if k < front.len() {
                assert(dots[k] == front[k]);
            }
        }
        if dots.last().0 > max_dx(front) || front.len() == 0 {
            assert(dots[dots.len() - 1].0 == max_dx(dots));
        } else {
            let k = choose|k: int| 0 <= k < front.len() && (#[trigger] front[k]).0 == max_dx(front);
            assert(dots[k].0 == max_dx(dots));
        }
        if dots.last().1 > max_dy(front) || front.len() == 0 {
            assert(dots[dots.len() - 1].1 == max_dy(dots));
        } else {
            let k = choose|k: int| 0 <= k < front.len() && (#[trigger] front[k]).1 == max_dy(front);
            assert(dots[k].1 == max_dy(dots));
        }
    }
}

/// `min_dx` and `min_dy` bound every dot from below and, where there is a dot, are reached by one.
pub proof fn lemma_min_bounds(dots: Seq<Dot>)
    ensures
        forall|k: int| 0 <= k < dots.len() ==> min_dx(dots) <= (#[trigger] dots[k]).0,
        forall|k: int| 0 <= k < dots.len() ==> min_dy(dots) <= (#[trigger] dots[k]).1,
        0 <= min_dx(dots) <= 255,
        0 <= min_dy(dots) <= 255,
        dots.len() > 0 ==> exists|k: int| 0 <= k < dots.len() && (#[trigger] dots[k]).0 == min_dx(dots),
        dots.len() > 0 ==> exists|k: int| 0 <= k < dots.len() && (#[trigger] dots[k]).1 == min_dy(dots),
    decreases dots.len(),
{
    if dots.len() == 1 {
        assert(dots[0].0 == min_dx(dots));
        assert(dots[0].1 == min_dy(dots));
    } else if dots.len() > 1 {
        let front = dots.drop_last();
        lemma_min_bounds(front);
        assert forall|k: int| 0 <= k < dots.len() implies min_dx(dots) <= (#[trigger] dots[k]).0 by {
            if k < front.len() {
                assert(dots[k] == front[k]);
            }
        }
        assert forall|k: int| 0 <= k < dots.len() implies min_dy(dots) <= (#[trigger] dots[k]).1 by {
            if k < front.len() {
                assert(dots[k] == front[k]);
            }
        }
        if dots.last().0 < min_dx(front) {
            assert(dots[dots.len() - 1].0 == min_dx(dots));
        } else {
            let k = choose|k: int| 0 <= k < front.len() && (#[trigger] front[k]).0 == min_dx(front);
            assert(dots[k].0 == min_dx(dots));
        }
        if dots.last().1 < min_dy(front) {
            assert(dots[dots.len() - 1].1 == min_dy(dots));
        } else {
            let k = choose|k: int| 0 <= k < front.len() && (#[trigger] front[k]).1 == min_dy(front);
            assert(dots[k].1 == min_dy(dots));
        }
    }
}

/// What a brick is: its dots, the flat index of its origin, and its shape tag.
pub struct BrickView {
    pub dots: Seq<Dot>,
    pub orig: int,
    pub shape: Shape,
}

impl BrickView {
    /// The flat index of dot `k` in a grid whose rows hold `width` cells.
    pub open spec fn cell(self, k: int, width: int) -> int {
        self.dots[k].0 + self.dots[k].1 * width + self.orig
    }

    /// Whether some dot lies on cell `c`.
    pub open spec fn covers(self, width: int, c: int) -> bool {
        exists|k: int| 0 <= k < self.dots.len() && #[trigger] self.cell(k, width) == c
    }

    /// Bounding-box width minus one.
    pub open spec fn width(self) -> int {
        max_dx(self.dots)
    }

    /// Bounding-box height minus one.
    pub open spec fn height(self) -> int {
        max_dy(self.dots)
    }

    /// The extent along `dir`: `width()` for `Left` and `Right`, `height()` otherwise.
    pub open spec fn dim_in(self, dir: Dir) -> int {
        if dir.is_horizontal() {
            self.width()
        } else {
            self.height()
        }
    }

    /// The same brick with its origin at `orig`.
    pub open spec fn at(self, orig: int) -> BrickView {
        BrickView { dots: self.dots, orig, shape: self.shape }
    }

    /// Some dot has `dx == 0` and some dot has `dy == 0`.
    pub open spec fn normalized(self) -> bool {
        min_dx(self.dots) == 0 && min_dy(self.dots) == 0
    }

    /// The same cells, described from the corner of the bounding box: every dot
    /// moves back by the smallest `dx` and `dy`, and the origin forward by as much.
    pub open spec fn reshifted(self, width: int) -> BrickView {
        let sx = min_dx(self.dots);
        let sy = min_dy(self.dots);
        BrickView {
            dots: Seq::new(
                self.dots.len(),
                |k: int| Dot((self.dots[k].0 - sx) as u8, (self.dots[k].1 - sy) as u8),
            ),
            orig: self.orig + sx + width * sy,
            shape: self.shape,
        }
    }

    /// The dots that lie on none of the cells `ids`, in their order.
    pub open spec fn dots_off(self, ids: Seq<usize>, width: int) -> Seq<Dot> {
        self.dots.filter(|d: Dot| !ids.contains((d.0 + d.1 * width + self.orig) as usize))
    }

    /// What is left of this brick once the cells `ids` are cut out of it: the
    /// dots off those cells, split into their maximal rook-connected clusters,
    /// each cluster a brick of the same shape tag, reshifted.
    pub open spec fn cut(self, ids: Seq<usize>, width: int) -> Seq<BrickView> {
        self.pieces_of(clusters(self.dots_off(ids, width)), width)
    }

    /// One brick for each cluster of `groups`, with this brick's origin and
    /// shape tag, reshifted.
    pub open spec fn pieces_of(self, groups: Seq<Seq<Dot>>, width: int) -> Seq<BrickView> {
        Seq::new(
            groups.len(),
            |g: int| BrickView { dots: groups[g], orig: self.orig, shape: self.shape }.reshifted(width),
        )
    }
}

/// The bricks as values.
pub open spec fn views_of(bricks: Seq<Brick>) -> Seq<BrickView> {
    Seq::new(bricks.len(), |i: int| bricks[i]@)
}

/// A reshifted brick lies on the same cells, and some dot of it has `dx == 0`
/// and some dot has `dy == 0`.
pub proof fn lemma_reshifted(b: BrickView, width: int)
    requires
        width >= 0,
    ensures
        b.reshifted(width).dots.len() == b.dots.len(),
        forall|k: int|
            0 <= k < b.dots.len() ==> #[trigger] b.reshifted(width).cell(k, width) == b.cell(
                k,
                width,
            ),
        forall|k: int|
            0 <= k < b.dots.len() ==> (#[trigger] b.reshifted(width).dots[k]).0 == b.dots[k].0
                - min_dx(b.dots) && b.reshifted(width).dots[k].1 == b.dots[k].1 - min_dy(b.dots),
        b.reshifted(width).normalized(),
        forall|k: int|
            0 <= k < b.dots.len() ==> b.orig <= b.reshifted(width).orig <= #[trigger] b.cell(
                k,
                width,
            ),
{
    let r = b.reshifted(width);
    let sx = min_dx(b.dots);
    let sy = min_dy(b.dots);
    lemma_min_bounds(b.dots);
    assert forall|k: int| 0 <= k < b.dots.len() implies #[trigger] r.cell(k, width) == b.cell(
        k,
        width,
    ) && b.orig <= r.orig <= b.cell(k, width) && r.dots[k].0 == b.dots[k].0 - sx && r.dots[k].1
        == b.dots[k].1 - sy by {
        let d = b.dots[k];
        assert(sx <= d.0 && sy <= d.1);
        assert((d.1 - sy) * width + sy * width == d.1 * width) by (nonlinear_arith);
        assert(sy * width >= 0 && (d.1 - sy) * width >= 0) by (nonlinear_arith)
            requires
                0 <= sy <= d.1,
                width >= 0,
        ;
        assert(width * sy == sy * width) by (nonlinear_arith);
    }
    assert forall|k: int| 0 <= k < b.dots.len() implies b.orig <= r.orig <= #[trigger] b.cell(
        k,
        width,
    ) by {
        assert(r.cell(k, width) == b.cell(k, width));
    }
    lemma_min_of_shifted(b.dots, r.dots, sx, sy);
}

/// Moving every dot back by `(sx, sy)` lowers the smallest `dx` and `dy` by as much.
proof fn lemma_min_of_shifted(dots: Seq<Dot>, moved: Seq<Dot>, sx: int, sy: int)
    requires
        moved.len() == dots.len(),
        forall|k: int|
            0 <= k < dots.len() ==> (#[trigger] moved[k]).0 == dots[k].0 - sx && moved[k].1
                == dots[k].1 - sy,
        dots.len() == 0 ==> sx == 0 && sy == 0,
    ensures
        min_dx(moved) == min_dx(dots) - sx,
        min_dy(moved) == min_dy(dots) - sy,
    decreases dots.len(),
{
    if dots.len() > 1 {
        lemma_min_of_shifted(dots.drop_last(), moved.drop_last(), sx, sy);
    }
}

/// The dots of the canonical brick of a shape, as it lies in the tray of `dir`.
pub open spec fn shape_dots(shape: Shape, dir: Dir) -> Seq<Dot> {
    match (shape, dir) {
        (Shape::O, _) => seq![Dot(0, 0), Dot(1, 0), Dot(1, 1), Dot(0, 1)],
        (Shape::L, Dir::Up) => seq![Dot(1, 0), Dot(0, 0), Dot(0, 1), Dot(0, 2)],
        (Shape::L, Dir::Right) => seq![Dot(0, 0), Dot(0, 1), Dot(1, 1), Dot(2, 1)],
        (Shape::L, Dir::Down) => seq![Dot(0, 2), Dot(1, 2), Dot(1, 1), Dot(1, 0)],
        (Shape::L, Dir::Left) => seq![Dot(0, 0), Dot(1, 0), Dot(2, 0), Dot(2, 1)],
        (Shape::T, Dir::Up) => seq![Dot(0, 1), Dot(1, 1), Dot(2, 1), Dot(1, 0)],
        (Shape::T, Dir::Right) => seq![Dot(0, 1), Dot(1, 1), Dot(1, 0), Dot(1, 2)],
        (Shape::T, Dir::Down) => seq![Dot(0, 0), Dot(0, 1), Dot(0, 2), Dot(1, 1)],
        (Shape::T, Dir::Left) => seq![Dot(0, 0), Dot(0, 1), Dot(0, 2), Dot(1, 1)],
        (Shape::S, Dir::Up) => seq![Dot(0, 0), Dot(1, 0), Dot(1, 1), Dot(2, 1)],
        (Shape::S, Dir::Down) => seq![Dot(0, 0), Dot(1, 0), Dot(1, 1), Dot(2, 1)],
        (Shape::S, Dir::Right) => seq![Dot(0, 2), Dot(0, 1), Dot(1, 1), Dot(1, 0)],
        (Shape::S, Dir::Left) => seq![Dot(0, 2), Dot(0, 1), Dot(1, 1), Dot(1, 0)],
        (Shape::Z, Dir::Up) => seq![Dot(0, 1), Dot(1, 1), Dot(1, 0), Dot(2, 0)],
        (Shape::Z, Dir::Down) => seq![Dot(0, 1), Dot(1, 1), Dot(1, 0), Dot(2, 0)],
        (Shape::Z, Dir::Right) => seq![Dot(0, 0), Dot(0, 1), Dot(1, 1), Dot(1, 2)],
        (Shape::Z, Dir::Left) => seq![Dot(0, 0), Dot(0, 1), Dot(1, 1), Dot(1, 2)],
        (Shape::I, Dir::Up) => seq![Dot(0, 0), Dot(0, 1), Dot(0, 2), Dot(0, 3)],
        (Shape::I, Dir::Down) => seq![Dot(0, 0), Dot(0, 1), Dot(0, 2), Dot(0, 3)],
        (Shape::I, Dir::Right) => seq![Dot(0, 0), Dot(1, 0), Dot(2, 0), Dot(3, 0)],
        (Shape::I, Dir::Left) => seq![Dot(0, 0), Dot(1, 0), Dot(2, 0), Dot(3, 0)],
    }
}

/// The canonical brick of a shape and a direction, with its origin at 0.
pub open spec fn shape_brick(shape: Shape, dir: Dir) -> BrickView {
    BrickView { dots: shape_dots(shape, dir), orig: 0, shape }
}

/// The fifteen distinct pairs of shape and direction, in the order in which
/// `Brick::iterator` lists their bricks.
pub open spec fn variants() -> Seq<(Shape, Dir)> {
    seq![
        (Shape::O, Dir::Up),
        (Shape::L, Dir::Up),
        (Shape::L, Dir::Right),
        (Shape::L, Dir::Down),
        (Shape::L, Dir::Left),
        (Shape::T, Dir::Up),
        (Shape::T, Dir::Right),
        (Shape::T, Dir::Down),
        (Shape::T, Dir::Left),
        (Shape::S, Dir::Up),
        (Shape::S, Dir::Right),
        (Shape::Z, Dir::Up),
        (Shape::Z, Dir::Right),
        (Shape::I, Dir::Up),
        (Shape::I, Dir::Right),
    ]
}

/// Canonical brick number `i` of `Brick::iterator`.
pub open spec fn variant_brick(i: int) -> BrickView {
    shape_brick(variants()[i].0, variants()[i].1)
}

/// What four dots make: their extents, and when they are a brick's dots.
proof fn lemma_four_dots(a: Dot, b: Dot, c: Dot, d: Dot)
    ensures
        ({
            let s = seq![a, b, c, d];
            &&& s.len() == 4
            &&& s[0] == a && s[1] == b && s[2] == c && s[3] == d
            &&& min_dx(s) <= a.0 && min_dx(s) <= b.0 && min_dx(s) <= c.0 && min_dx(s) <= d.0
            &&& min_dy(s) <= a.1 && min_dy(s) <= b.1 && min_dy(s) <= c.1 && min_dy(s) <= d.1
            &&& min_dx(s) == a.0 || min_dx(s) == b.0 || min_dx(s) == c.0 || min_dx(s) == d.0
            &&& min_dy(s) == a.1 || min_dy(s) == b.1 || min_dy(s) == c.1 || min_dy(s) == d.1
            &&& max_dx(s) >= a.0 && max_dx(s) >= b.0 && max_dx(s) >= c.0 && max_dx(s) >= d.0
            &&& max_dy(s) >= a.1 && max_dy(s) >= b.1 && max_dy(s) >= c.1 && max_dy(s) >= d.1
            &&& max_dx(s) == a.0 || max_dx(s) == b.0 || max_dx(s) == c.0 || max_dx(s) == d.0
            &&& max_dy(s) == a.1 || max_dy(s) == b.1 || max_dy(s) == c.1 || max_dy(s) == d.1
            &&& adjacent(a, b) && (adjacent(a, c) || adjacent(b, c)) && (adjacent(a, d) || adjacent(
                b,
                d,
            ) || adjacent(c, d)) ==> linked(s)
            &&& a != b && a != c && a != d && b != c && b != d && c != d ==> s.no_duplicates()
        }),
{
    let s = seq![a, b, c, d];
    lemma_min_bounds(s);
    lemma_max_bounds(s);
    assert(s[0] == a && s[1] == b && s[2] == c && s[3] == d);
    if adjacent(a, b) && (adjacent(a, c) || adjacent(b, c)) && (adjacent(a, d) || adjacent(b, d)
        || adjacent(c, d)) {
        assert forall|k: int| 1 <= k < s.len() implies #[trigger] touches_earlier(s, k) by {
            if k == 1 {
                assert(adjacent(s[0], s[1]));
            } else if k == 2 {
                assert(adjacent(s[0], s[2]) || adjacent(s[1], s[2]));
            } else {
                assert(adjacent(s[0], s[3]) || adjacent(s[1], s[3]) || adjacent(s[2], s[3]));
            }
        }
    }
}

/// Every canonical brick has four different dots, none further than 3 from
/// the origin along either axis, which hang together, with the origin at the
/// corner of their bounding box.
pub proof fn lemma_shape_brick(shape: Shape, dir: Dir)
    ensures
        shape_dots(shape, dir).len() == 4,
        shape_dots(shape, dir).no_duplicates(),
        linked(shape_dots(shape, dir)),
        shape_brick(shape, dir).normalized(),
        0 <= max_dx(shape_dots(shape, dir)) <= 3,
        0 <= max_dy(shape_dots(shape, dir)) <= 3,
        forall|k: int|
            0 <= k < 4 ==> (#[trigger] shape_dots(shape, dir)[k]).0 <= max_dx(shape_dots(shape, dir))
                && shape_dots(shape, dir)[k].1 <= max_dy(shape_dots(shape, dir)),
{
    match shape {
        Shape::O => lemma_four_dots(Dot(0, 0), Dot(1, 0), Dot(1, 1), Dot(0, 1)),
        Shape::L => match dir {
            Dir::Up => lemma_four_dots(Dot(1, 0), Dot(0, 0), Dot(0, 1), Dot(0, 2)),
            Dir::Right => lemma_four_dots(Dot(0, 0), Dot(0, 1), Dot(1, 1), Dot(2, 1)),
            Dir::Down => lemma_four_dots(Dot(0, 2), Dot(1, 2), Dot(1, 1), Dot(1, 0)),
            Dir::Left => lemma_four_dots(Dot(0, 0), Dot(1, 0), Dot(2, 0), Dot(2, 1)),
        },
        Shape::T => match dir {
            Dir::Up => lemma_four_dots(Dot(0, 1), Dot(1, 1), Dot(2, 1), Dot(1, 0)),
            Dir::Right => lemma_four_dots(Dot(0, 1), Dot(1, 1), Dot(1, 0), Dot(1, 2)),
            Dir::Down => lemma_four_dots(Dot(0, 0), Dot(0, 1), Dot(0, 2), Dot(1, 1)),
            Dir::Left => lemma_four_dots(Dot(0, 0), Dot(0, 1), Dot(0, 2), Dot(1, 1)),
        },
        Shape::S => if dir.is_horizontal() {
            lemma_four_dots(Dot(0, 2), Dot(0, 1), Dot(1, 1), Dot(1, 0))
        } else {
            lemma_four_dots(Dot(0, 0), Dot(1, 0), Dot(1, 1), Dot(2, 1))
        },
        Shape::Z => if dir.is_horizontal() {
            lemma_four_dots(Dot(0, 0), Dot(0, 1), Dot(1, 1), Dot(1, 2))
        } else {
            lemma_four_dots(Dot(0, 1), Dot(1, 1), Dot(1, 0), Dot(2, 0))
        },
        Shape::I => if dir.is_horizontal() {
            lemma_four_dots(Dot(0, 0), Dot(1, 0), Dot(2, 0), Dot(3, 0))
        } else {
            lemma_four_dots(Dot(0, 0), Dot(0, 1), Dot(0, 2), Dot(0, 3))
        },
    }
    lemma_max_bounds(shape_dots(shape, dir));
}

/// The canonical bricks of `Brick::iterator` are canonical bricks.
pub proof fn lemma_variant(i: int)
    requires
        0 <= i < 15,
    ensures
        variant_brick(i).dots.len() == 4,
        variant_brick(i).dots.no_duplicates(),
        linked(variant_brick(i).dots),
        variant_brick(i).normalized(),
        0 <= variant_brick(i).width() <= 3,
        0 <= variant_brick(i).height() <= 3,
        variant_brick(i).orig == 0,
        forall|k: int|
            0 <= k < 4 ==> (#[trigger] variant_brick(i).dots[k]).0 <= variant_brick(i).width()
                && variant_brick(i).dots[k].1 <= variant_brick(i).height(),
{
    lemma_shape_brick(variants()[i].0, variants()[i].1);
}

/// A polyomino: dots relative to an origin, the origin's flat index in the
/// grid that holds the brick, and the shape it was made from.
#[derive(Debug, Clone, Default, PartialEq, Eq)]
pub struct Brick(pub Vec<Dot>, pub u8, pub Shape);

impl View for Brick {
    type V = BrickView;

    open spec fn view(&self) -> BrickView {
        BrickView { dots: self.0@, orig: self.1 as int, shape: self.2 }
    }
}

impl Brick {
    /// The canonical brick of `shape` for the tray of `dir`, with its origin at 0.
    pub fn from(shape: Shape, dir: Dir) -> (r: Self)
        ensures
            r@ == shape_brick(shape, dir),
    {
        let dots = match (shape, dir) {
            (Shape::O, _) => vec![Dot(0, 0), Dot(1, 0), Dot(1, 1), Dot(0, 1)],
            (Shape::L, Dir::Up) => vec![Dot(1, 0), Dot(0, 0), Dot(0, 1), Dot(0, 2)],
            (Shape::L, Dir::Right) => vec![Dot(0, 0), Dot(0, 1), Dot(1, 1), Dot(2, 1)],
            (Shape::L, Dir::Down) => vec![Dot(0, 2), Dot(1, 2), Dot(1, 1), Dot(1, 0)],
            (Shape::L, Dir::Left) => vec![Dot(0, 0), Dot(1, 0), Dot(2, 0), Dot(2, 1)],
            (Shape::T, Dir::Up) => vec![Dot(0, 1), Dot(1, 1), Dot(2, 1), Dot(1, 0)],
            (Shape::T, Dir::Right) => vec![Dot(0, 1), Dot(1, 1), Dot(1, 0), Dot(1, 2)],
            (Shape::T, Dir::Down) => vec![Dot(0, 0), Dot(0, 1), Dot(0, 2), Dot(1, 1)],
            (Shape::T, Dir::Left) => vec![Dot(0, 0), Dot(0, 1), Dot(0, 2), Dot(1, 1)],
            (Shape::S, Dir::Up | Dir::Down) => vec![Dot(0, 0), Dot(1, 0), Dot(1, 1), Dot(2, 1)],
            (Shape::S, Dir::Right | Dir::Left) => vec![Dot(0, 2), Dot(0, 1), Dot(1, 1), Dot(1, 0)],
            (Shape::Z, Dir::Up | Dir::Down) => vec![Dot(0, 1), Dot(1, 1), Dot(1, 0), Dot(2, 0)],
            (Shape::Z, Dir::Right | Dir::Left) => vec![Dot(0, 0), Dot(0, 1), Dot(1, 1), Dot(1, 2)],
            (Shape::I, Dir::Up | Dir::Down) => vec![Dot(0, 0), Dot(0, 1), Dot(0, 2), Dot(0, 3)],
            (Shape::I, Dir::Right | Dir::Left) => vec![Dot(0, 0), Dot(1, 0), Dot(2, 0), Dot(3, 0)],
        };
        assert(dots@ =~= shape_dots(shape, dir));
        Brick(dots, 0, shape)
    }

    /// One canonical brick for each distinct pair of shape and direction.
    pub fn iterator() -> (r: Vec<Self>)
        ensures
            r@.len() == 15,
            forall|i: int| 0 <= i < 15 ==> (#[trigger] r@[i])@ == variant_brick(i),
    {
        let mut r: Vec<Brick> = Vec::new();
        r.push(Brick::from(Shape::O, Dir::Up));
        r.push(Brick::from(Shape::L, Dir::Up));
        r.push(Brick::from(Shape::L, Dir::Right));
        r.push(Brick::from(Shape::L, Dir::Down));
        r.push(Brick::from(Shape::L, Dir::Left));
        r.push(Brick::from(Shape::T, Dir::Up));
        r.push(Brick::from(Shape::T, Dir::Right));
        r.push(Brick::from(Shape::T, Dir::Down));
        r.push(Brick::from(Shape::T, Dir::Left));
        r.push(Brick::from(Shape::S, Dir::Up));
        r.push(Brick::from(Shape::S, Dir::Right));
        r.push(Brick::from(Shape::Z, Dir::Up));
        r.push(Brick::from(Shape::Z, Dir::Right));
        r.push(Brick::from(Shape::I, Dir::Up));
        r.push(Brick::from(Shape::I, Dir::Right));
        r
    }

    /// The flat index of the origin.
    pub fn orig(&self) -> (r: u8)
        ensures
            r == self@.orig,
    {
        self.1
    }

    /// The flat indices of the dots in a grid whose rows hold `width` cells.
    pub fn iter_for_width(&self, width: u8) -> (r: Vec<usize>)
        ensures
            r@.len() == self@.dots.len(),
            forall|k: int| 0 <= k < r@.len() ==> #[trigger] r@[k] == self@.cell(k, width as int),
    {
        let mut r: Vec<usize> = Vec::new();
        let mut k: usize = 0;
        while k < self.0.len()
            invariant
                k <= self.0.len(),
                r@.len() == k,
                forall|j: int| 0 <= j < k ==> #[trigger] r@[j] == self@.cell(j, width as int),
            decreases self.0.len() - k,
        {
            r.push(self.0[k].to_idx(self.1, width));
            k += 1;
        }
        r
    }

    /// Whether a dot lies on cell `id`.
    pub fn contains(&self, id: usize, width: u8) -> (r: bool)
        ensures
            r == self@.covers(width as int, id as int),
    {
        let mut k: usize = 0;
        while k < self.0.len()
            invariant
                k <= self.0.len(),
                forall|j: int| 0 <= j < k ==> #[trigger] self@.cell(j, width as int) != id,
            decreases self.0.len() - k,
        {
            if self.0[k].to_idx(self.1, width) == id {
                assert(self@.cell(k as int, width as int) == id);
                return true;
            }
            k += 1;
        }
        false
    }

    /// Whether a dot lies on one of the cells `ids`.
    pub fn contains_any(&self, ids: &[usize], width: u8) -> (r: bool)
        ensures
            r == exists|j: int| 0 <= j < ids@.len() && self@.covers(width as int, #[trigger] ids@[j] as int),
    {
        let mut j: usize = 0;
        while j < ids.len()
            invariant
                j <= ids@.len(),
                forall|i: int| 0 <= i < j ==> !self@.covers(width as int, #[trigger] ids@[i] as int),
            decreases ids@.len() - j,
        {
            if self.contains(ids[j], width) {
                return true;
            }
            j += 1;
        }
        false
    }

    /// Bounding-box height minus one: the largest `dy`.
    pub fn height(&self) -> (r: u8)
        ensures
            r == self@.height(),
    {
        let mut m: u8 = 0;
        let mut k: usize = 0;
        while k < self.0.len()
            invariant
                k <= self.0.len(),
                m == max_dy(self.0@.take(k as int)),
            decreases self.0.len() - k,
        {
            assert(self.0@.take(k + 1).drop_last() =~= self.0@.take(k as int));
            if self.0[k].1 > m {
                m = self.0[k].1;
            }
            k += 1;
        }
        assert(self.0@.take(k as int) =~= self.0@);
        m
    }

    /// Bounding-box width minus one: the largest `dx`.
    pub fn width(&self) -> (r: u8)
        ensures
            r == self@.width(),
    {
        let mut m: u8 = 0;
        let mut k: usize = 0;
        while k < self.0.len()
            invariant
                k <= self.0.len(),
                m == max_dx(self.0@.take(k as int)),
            decreases self.0.len() - k,
        {
            assert(self.0@.take(k + 1).drop_last() =~= self.0@.take(k as int));
            if self.0[k].0 > m {
                m = self.0[k].0;
            }
            k += 1;
        }
        assert(self.0@.take(k as int) =~= self.0@);
        m
    }

    /// The extent along `dir`: `width()` for `Left` and `Right`, `height()` otherwise.
    pub fn dim_in(&self, dir: Dir) -> (r: u8)
        ensures
            r == self@.dim_in(dir),
    {
        dir.if_h(self.width(), self.height())
    }

    /// A copy with dots, origin and shape tag of its own.
    pub fn duplicate(&self) -> (r: Brick)
        ensures
            r@ == self@,
    {
        Brick(self.0.clone(), self.1, self.2)
    }

    /// Moves the origin to the corner of the bounding box, keeping every dot on
    /// its cell: afterwards the smallest `dx` and the smallest `dy` are 0.
    pub fn reshift_orig(&mut self, width: u8)
        requires
            old(self)@.orig + min_dx(old(self)@.dots) + width * min_dy(old(self)@.dots) <= u8::MAX,
        ensures
            final(self)@ == old(self)@.reshifted(width as int),
    {
        let n = self.0.len();
        let mut sx: u8 = 0;
        let mut sy: u8 = 0;
        let mut k: usize = 0;
        while k < n
            invariant
                n == self.0@.len(),
                k <= n,
                sx == min_dx(self.0@.take(k as int)),
                sy == min_dy(self.0@.take(k as int)),
            decreases n - k,
        {
            assert(self.0@.take(k + 1).drop_last() =~= self.0@.take(k as int));
            let d = self.0[k];
            if k == 0 || d.0 < sx {
                sx = d.0;
            }
            if k == 0 || d.1 < sy {
                sy = d.1;
            }
            k += 1;
        }
        proof {
            assert(self.0@.take(k as int) =~= self.0@);
            lemma_min_bounds(self.0@);
            assert(width * sy >= 0) by (nonlinear_arith)
                requires
                    width >= 0,
                    sy >= 0,
            ;
        }
        let ghost before = self@;
        self.1 = self.1 + sx + width * sy;
        let mut k: usize = 0;
        while k < n
            invariant
                n == self.0@.len(),
                n == before.dots.len(),
                k <= n,
                self.1 == before.orig + sx + width * sy,
                self.2 == before.shape,
                sx == min_dx(before.dots),
                sy == min_dy(before.dots),
                forall|j: int| 0 <= j < n ==> sx <= (#[trigger] before.dots[j]).0 && sy <= before.dots[j].1,
                forall|j: int| k <= j < n ==> #[trigger] self.0@[j] == before.dots[j],
                forall|j: int|
                    0 <= j < k ==> #[trigger] self.0@[j] == Dot(
                        (before.dots[j].0 - sx) as u8,
                        (before.dots[j].1 - sy) as u8,
                    ),
            decreases n - k,
        {
            let d = self.0[k];
            assert(d == before.dots[k as int]);
            self.0[k] = Dot(d.0 - sx, d.1 - sy);
            k += 1;
        }
        assert(self@.dots =~= before.reshifted(width as int).dots);
    }

    /// Whether `id` is one of `ids`.
    fn listed(ids: &[usize], id: usize) -> (r: bool)
        ensures
            r == ids@.contains(id),
    {
        let mut j: usize = 0;
        while j < ids.len()
            invariant
                j <= ids@.len(),
                forall|i: int| 0 <= i < j ==> ids@[i] != id,
            decreases ids@.len() - j,
        {
            if ids[j] == id {
                return true;
            }
            j += 1;
        }
        false
    }

    /// Cuts the cells `ids` out of the brick. What is left falls into its
    /// maximal rook-connected clusters; the last of them stays in `self`, the
    /// others are returned as bricks of their own, all reshifted and with the
    /// shape tag of the brick. Where nothing is left, `self` ends without dots
    /// and nothing is returned.
    pub fn cut_at(&mut self, ids: &[usize], width: u8) -> (rest: Vec<Brick>)
        requires
            forall|k: int|
                0 <= k < old(self)@.dots.len() ==> #[trigger] old(self)@.cell(k, width as int)
                    <= u8::MAX,
        ensures
            views_of(rest@).push(final(self)@) == old(self)@.cut(ids@, width as int),
            old(self)@.dots_off(ids@, width as int).len() == 0 ==> rest@.len() == 0
                && final(self)@.dots.len() == 0,
    {
        let orig = self.1;
        let shape = self.2;
        let ghost before = self@;
        let ghost off = |d: Dot| !ids@.contains((d.0 + d.1 * width + before.orig) as usize);
        let mut kept: Vec<Dot> = Vec::new();
        let mut k: usize = 0;
        while k < self.0.len()
            invariant
                k <= self.0@.len(),
                self@ == before,
                orig == before.orig,
                off == |d: Dot| !ids@.contains((d.0 + d.1 * width + before.orig) as usize),
                kept@ == before.dots.take(k as int).filter(off),
            decreases self.0@.len() - k,
        {
            let d = self.0[k];
            proof {
                before.dots.lemma_take_succ_push(k as int);
                before.dots.take(k as int).lemma_filter_push(d, off);
            }
            if !Self::listed(ids, d.to_idx(orig, width)) {
                kept.push(d);
            }
            k += 1;
        }
        let mut dot_groups = Dot::group_connected(kept.as_slice());
        let ghost groups = clusters_of(dot_groups@);
        proof {
            assert(before.dots.take(k as int) =~= before.dots);
            assert(kept@ == before.dots_off(ids@, width as int));
            lemma_grouping_within(groups, kept@);
            assert forall|g: int, j: int|
                0 <= g < groups.len() && 0 <= j < groups[g].len() implies (#[trigger] groups[g][j]).0
                + groups[g][j].1 * width + before.orig <= u8::MAX by {
                let d = groups[g][j];
                assert(kept@.contains(d));
                before.dots.lemma_filter_contains_rev(off, d);
                let i = choose|i: int| 0 <= i < before.dots.len() && before.dots[i] == d;
                assert(before.cell(i, width as int) <= u8::MAX);
            }
        }
        let pieces = dot_groups.len();
        let last = dot_groups.pop().unwrap();
        self.0 = last;
        proof {
            lemma_shift_fits(groups[pieces - 1], before.orig, width as int);
        }
        self.reshift_orig(width);
        let mut rest: Vec<Brick> = Vec::new();
        let mut g: usize = 0;
        while g < dot_groups.len()
            invariant
                g <= dot_groups@.len(),
                dot_groups@.len() == pieces - 1,
                groups.len() == pieces,
                forall|h: int| 0 <= h < pieces - 1 ==> (#[trigger] dot_groups@[h])@ == groups[h],
                orig == before.orig,
                shape == before.shape,
                rest@.len() == g,
                forall|h: int|
                    0 <= h < g ==> (#[trigger] rest@[h])@ == before.pieces_of(
                        groups,
                        width as int,
                    )[h],
                forall|h: int, j: int|
                    0 <= h < groups.len() && 0 <= j < groups[h].len() ==> (#[trigger] groups[h][j]).0
                        + groups[h][j].1 * width + before.orig <= u8::MAX,
            decreases dot_groups@.len() - g,
        {
            let mut b = Brick(dot_groups[g].clone(), orig, shape);
            proof {
                lemma_shift_fits(groups[g as int], before.orig, width as int);
            }
            b.reshift_orig(width);
            rest.push(b);
            g += 1;
        }
        proof {
            assert(views_of(rest@).push(self@) =~= before.pieces_of(groups, width as int));
            if before.dots_off(ids@, width as int).len() == 0 {
                assert(groups.len() == 1);
            }
        }
        rest
    }
}

/// The corner of the bounding box of dots that all lie on cells up to 255 is
/// itself a cell up to 255.
proof fn lemma_shift_fits(dots: Seq<Dot>, orig: int, width: int)
    requires
        0 <= orig <= u8::MAX,
        width >= 0,
        forall|j: int| 0 <= j < dots.len() ==> (#[trigger] dots[j]).0 + dots[j].1 * width + orig <= u8::MAX,
    ensures
        orig + min_dx(dots) + width * min_dy(dots) <= u8::MAX,
{
    lemma_min_bounds(dots);
    if dots.len() > 0 {
        let d = dots[0];
        let sx = min_dx(dots);
        let sy = min_dy(dots);
        assert(sx <= d.0 && sy <= d.1);
        assert(width * sy <= d.1 * width) by (nonlinear_arith)
            requires
                0 <= sy <= d.1,
                width >= 0,
        ;
    }
}

} // verus!
