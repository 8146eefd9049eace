//! The game: a board, one tray along each of its edges, and the turn.

use crate::chance::choose_index;
use crate::cut::{cleared_bricks, hit, lemma_clearing, lemma_nothing_cut, zeroed};
use crate::lines::{
    full_cells, full_count, lemma_cleared_has_no_full_line, lemma_no_cells_no_lines,
};
use crate::grid::{
    can_occupy, covered, fits, free_for, lemma_cell_position, lemma_grid_of, mark, marked, placed,
    slide, vacant, within, Grid, GridView, Sq,
};
use crate::shapes::{
    lemma_max_bounds, lemma_variant, variant_brick, Brick, BrickView, Dir,
};
use vstd::arithmetic::div_mod::lemma_fundamental_div_mod_converse;
use vstd::prelude::*;

verus! {

/// How deep a tray is: the cells between the board's edge and the tray's far side.
pub const TRAY_DEPTH: u8 = 4;

/// What a game is: the board, the four trays, the turn counter, the score and
/// the move that was asked for and not yet made.
pub struct GameView {
    pub board: GridView,
    pub up: GridView,
    pub right: GridView,
    pub down: GridView,
    pub left: GridView,
    pub turn: int,
    pub score: int,
    pub play: Option<Dir>,
}

/// The four directions in the order in which the trays are searched.
pub open spec fn dir_at(i: int) -> Dir {
    if i == 0 {
        Dir::Up
    } else if i == 1 {
        Dir::Right
    } else if i == 2 {
        Dir::Down
    } else {
        Dir::Left
    }
}

/// What a tray origin grows by when a brick moves one place along the tray
/// of `dir`: a whole row of 4 cells in the side trays, one cell in the others.
pub open spec fn unit(dir: Dir) -> int {
    if dir.is_horizontal() {
        4
    } else {
        1
    }
}

/// The row of the board in which a brick from the tray of `dir` enters.
pub open spec fn entry_row(b: BrickView, dir: Dir, h: int) -> int {
    match dir {
        Dir::Left => b.orig / 4,
        Dir::Right => b.orig / 4,
        Dir::Down => 0,
        Dir::Up => h - 1 - b.height(),
    }
}

/// The column of the board in which a brick from the tray of `dir` enters.
pub open spec fn entry_col(b: BrickView, dir: Dir, w: int) -> int {
    match dir {
        Dir::Left => 0,
        Dir::Right => w - 1 - b.width(),
        Dir::Down => b.orig,
        Dir::Up => b.orig,
    }
}

/// The bounding box of a brick from the tray of `dir` lies inside a board of
/// `w` by `h` cells when the brick enters.
pub open spec fn can_enter(b: BrickView, dir: Dir, w: int, h: int) -> bool {
    &&& 0 <= entry_row(b, dir, h)
    &&& 0 <= entry_col(b, dir, w)
    &&& entry_row(b, dir, h) + b.height() < h
    &&& entry_col(b, dir, w) + b.width() < w
}

/// A brick from the tray of `dir` as it enters the board: against the edge
/// of `dir`, in the rows or columns that it had in the tray.
pub open spec fn entry(b: BrickView, dir: Dir, w: int, h: int) -> BrickView {
    b.at(entry_row(b, dir, h) * w + entry_col(b, dir, w))
}

/// The bricks of the board and of the tray of `dir` after the tray's bricks
/// from number `i` on have tried to enter, one after another: a brick enters
/// where its bounding box lies inside the board and its cells are free, and
/// stays in the tray otherwise.
pub open spec fn transfer(
    board: Seq<BrickView>,
    tray: Seq<BrickView>,
    i: int,
    dir: Dir,
    w: int,
    h: int,
) -> (Seq<BrickView>, Seq<BrickView>)
    decreases tray.len() - i,
{
    if 0 <= i < tray.len() {
        let e = entry(tray[i], dir, w, h);
        if can_enter(tray[i], dir, w, h) && vacant(board, e, w) {
            transfer(board.push(e), tray.remove(i), i, dir, w, h)
        } else {
            transfer(board, tray, i + 1, dir, w, h)
        }
    } else {
        (board, tray)
    }
}

impl GameView {
    /// The tray along the edge `dir`.
    pub open spec fn tray(self, dir: Dir) -> GridView {
        match dir {
            Dir::Up => self.up,
            Dir::Right => self.right,
            Dir::Down => self.down,
            Dir::Left => self.left,
        }
    }

    /// The same game with `g` as the tray along the edge `dir`.
    pub open spec fn with_tray(self, dir: Dir, g: GridView) -> GameView {
        match dir {
            Dir::Up => GameView { up: g, ..self },
            Dir::Right => GameView { right: g, ..self },
            Dir::Down => GameView { down: g, ..self },
            Dir::Left => GameView { left: g, ..self },
        }
    }

    /// The board and the trays keep the occupancy rule, the board has at
    /// least one cell and at most 255, at most 64 rows, and each tray is 4
    /// cells deep and as long as its edge.
    pub open spec fn wf(self) -> bool {
        &&& self.board.wf()
        &&& self.up.wf()
        &&& self.right.wf()
        &&& self.down.wf()
        &&& self.left.wf()
        &&& 1 <= self.board.height <= 64
        &&& self.board.width * self.board.height <= 255
        &&& self.up.width == self.board.width && self.up.height == 4
        &&& self.down.width == self.board.width && self.down.height == 4
        &&& self.left.width == 4 && self.left.height == self.board.height
        &&& self.right.width == 4 && self.right.height == self.board.height
        &&& 0 <= self.turn <= u8::MAX
        &&& 0 <= self.score <= u32::MAX
    }

    /// The length of the edge `dir`: the board's height for `Left` and
    /// `Right`, its width for `Up` and `Down`.
    pub open spec fn reach(self, dir: Dir) -> int {
        if dir.is_horizontal() {
            self.board.height
        } else {
            self.board.width
        }
    }

    /// The number of places along the tray of `dir` at which canonical brick
    /// `v` lies inside the tray.
    pub open spec fn slots(self, dir: Dir, v: int) -> int {
        let m = self.reach(dir) - variant_brick(v).dim_in(dir.turn());
        if m > 0 {
            m
        } else {
            0
        }
    }

    /// Canonical brick `v` at place `p` of the tray of `dir`.
    pub open spec fn offer(dir: Dir, v: int, p: int) -> BrickView {
        variant_brick(v).at(p * unit(dir))
    }

    /// The candidates that canonical brick `v` has in the tray of `dir` at the
    /// places below `p_end`: the places where all its cells are free, in
    /// rising order.
    pub open spec fn cands_p(self, dir: Dir, v: int, p_end: int) -> Seq<(Dir, BrickView)>
        decreases p_end,
    {
        if p_end <= 0 {
            Seq::empty()
        } else {
            let before = self.cands_p(dir, v, p_end - 1);
            let b = Self::offer(dir, v, p_end - 1);
            if free_for(self.tray(dir).cells, b, self.tray(dir).width) {
                before.push((dir, b))
            } else {
                before
            }
        }
    }

    /// The candidates in the tray of `dir` of the canonical bricks below `v_end`.
    pub open spec fn cands_v(self, dir: Dir, v_end: int) -> Seq<(Dir, BrickView)>
        decreases v_end,
    {
        if v_end <= 0 {
            Seq::empty()
        } else {
            self.cands_v(dir, v_end - 1) + self.cands_p(dir, v_end - 1, self.slots(dir, v_end - 1))
        }
    }

    /// The candidates in the first `d_end` trays.
    pub open spec fn cands_d(self, d_end: int) -> Seq<(Dir, BrickView)>
        decreases d_end,
    {
        if d_end <= 0 {
            Seq::empty()
        } else {
            self.cands_d(d_end - 1) + self.cands_v(dir_at(d_end - 1), 15)
        }
    }

    /// Every way to put one more canonical brick into a tray: for each tray
    /// (`Up`, `Right`, `Down`, `Left`), each canonical brick and each place
    /// along the tray at which the brick lies inside the tray and on free
    /// cells, the tray's direction and the brick at that place.
    pub open spec fn candidates(self) -> Seq<(Dir, BrickView)> {
        self.cands_d(4)
    }

    /// The game with candidate number `i` of `candidates` added to its tray.
    pub open spec fn with_candidate(self, i: int) -> GameView {
        self.with_tray_brick(self.candidates()[i].0, self.candidates()[i].1)
    }

    /// A game with an empty board of `height` rows and `width` columns, four
    /// empty trays, no turn counted, nothing scored and no move asked for.
    pub open spec fn fresh(height: int, width: int) -> GameView {
        GameView {
            board: GridView::of(Seq::empty(), width, height),
            up: GridView::of(Seq::empty(), width, 4),
            right: GridView::of(Seq::empty(), 4, height),
            down: GridView::of(Seq::empty(), width, 4),
            left: GridView::of(Seq::empty(), 4, height),
            turn: 0,
            score: 0,
            play: None,
        }
    }

    /// The game with brick `b` added to the tray of `dir`.
    pub open spec fn with_tray_brick(self, dir: Dir, b: BrickView) -> GameView {
        let t = self.tray(dir);
        self.with_tray(
            dir,
            GridView {
                cells: marked(t.cells, b, t.width, 1),
                bricks: t.bricks.push(b),
                width: t.width,
                height: t.height,
            },
        )
    }

    /// The game after the bricks in the tray of `dir` have tried to enter the board.
    pub open spec fn entered(self, dir: Dir) -> GameView {
        let w = self.board.width;
        let h = self.board.height;
        let t = self.tray(dir);
        let moved = transfer(self.board.bricks, t.bricks, 0, dir, w, h);
        GameView { board: GridView::of(moved.0, w, h), ..self }.with_tray(
            dir,
            GridView::of(moved.1, t.width, t.height),
        )
    }

    /// The game after the board's bricks have slid towards `dir`.
    pub open spec fn slid(self, dir: Dir) -> GameView {
        let w = self.board.width;
        let h = self.board.height;
        GameView { board: GridView::of(slide(self.board.bricks, dir, w, h), w, h), ..self }
    }

    /// The game after the full rows and columns of the board are cleared:
    /// each of them counts one into the score, and their cells are cut out of
    /// the board's bricks.
    pub open spec fn cleared(self) -> GameView {
        let w = self.board.width;
        let h = self.board.height;
        GameView {
            board: GridView::of(
                cleared_bricks(self.board.bricks, full_cells(self.board.cells, w, h), w),
                w,
                h,
            ),
            score: self.score + full_count(self.board.cells, w, h),
            ..self
        }
    }

    /// The game after a move towards `dir`: the board's bricks slide that way,
    /// then the bricks waiting in the tray of the facing edge try to enter,
    /// and no move is asked for any more.
    pub open spec fn played(self, dir: Dir) -> GameView {
        GameView { play: None, ..self.slid(dir).entered(dir.opp()) }
    }
}

/// A canonical brick at one of its places along a tray lies inside the tray.
pub proof fn lemma_offer_placed(g: GameView, dir: Dir, v: int, p: int)
    requires
        g.wf(),
        0 <= v < 15,
        0 <= p < g.slots(dir, v),
    ensures
        placed(GameView::offer(dir, v, p), g.tray(dir).width, g.tray(dir).height),
        0 <= p * unit(dir) <= u8::MAX,
{
    let b = GameView::offer(dir, v, p);
    let w = g.tray(dir).width;
    let h = g.tray(dir).height;
    lemma_variant(v);
    if dir.is_horizontal() {
        lemma_fundamental_div_mod_converse(b.orig, 4, p, 0);
    } else {
        lemma_fundamental_div_mod_converse(b.orig, w, 0, p);
    }
    assert forall|k: int| 0 <= k < b.dots.len() implies #[trigger] fits(b, k, w, h) by {
        assert(b.dots[k] == variant_brick(v).dots[k]);
    }
}

/// A brick of a tray whose bounding box lies inside the board when it enters
/// lies inside the board with each of its dots.
pub proof fn lemma_entry_placed(b: BrickView, dir: Dir, tw: int, th: int, w: int, h: int)
    requires
        tw > 0,
        w > 0,
        placed(b, tw, th),
        can_enter(b, dir, w, h),
    ensures
        placed(entry(b, dir, w, h), w, h),
        0 <= entry(b, dir, w, h).orig < w * h,
{
    let e = entry(b, dir, w, h);
    let r = entry_row(b, dir, h);
    let c = entry_col(b, dir, w);
    lemma_max_bounds(b.dots);
    assert(r * w >= 0 && r * w + c < w * h) by (nonlinear_arith)
        requires
            0 <= r < h,
            0 <= c < w,
    ;
    lemma_fundamental_div_mod_converse(e.orig, w, r, c);
    assert forall|k: int| 0 <= k < e.dots.len() implies #[trigger] fits(e, k, w, h) by {
        assert(b.dots[k].0 <= b.width() && b.dots[k].1 <= b.height());
    }
}

/// A board, the tray along each of its edges, the turn counter and the score.
#[derive(Debug, Clone)]
pub struct Game {
    board: Grid,
    tray_up: Grid,
    tray_right: Grid,
    tray_down: Grid,
    tray_left: Grid,
    turn: u8,
    score: u32,
    /// The move that was asked for and not yet made.
    pub play: Option<Dir>,
}

impl View for Game {
    type V = GameView;

    closed spec fn view(&self) -> GameView {
        GameView {
            board: self.board@,
            up: self.tray_up@,
            right: self.tray_right@,
            down: self.tray_down@,
            left: self.tray_left@,
            turn: self.turn as int,
            score: self.score as int,
            play: self.play,
        }
    }
}

/// Lets the bricks of `tray`, the tray along the edge `dir`, enter `board`.
fn move_in(board: &mut Grid, tray: &mut Grid, dir: Dir)
    requires
        old(board).wf(),
        old(tray).wf(),
        old(board).width * old(board).height <= 255,
    ensures
        final(board).wf(),
        final(tray).wf(),
        final(board).width == old(board).width,
        final(board).height == old(board).height,
        final(tray).width == old(tray).width,
        final(tray).height == old(tray).height,
        (final(board).views(), final(tray).views()) == transfer(
            old(board).views(),
            old(tray).views(),
            0,
            dir,
            old(board).width as int,
            old(board).height as int,
        ),
{
    let ghost w = board.width as int;
    let ghost h = board.height as int;
    let ghost tw = tray.width as int;
    let ghost th = tray.height as int;
    let ghost board0 = board.views();
    let ghost tray0 = tray.views();
    let bw = board.width as usize;
    let bh = board.height as usize;
    let mut i: usize = 0;
    while i < tray.bricks.len()
        invariant
            board.wf(),
            tray.wf(),
            board.width == w,
            board.height == h,
            tray.width == tw,
            tray.height == th,
            bw == w,
            bh == h,
            w * h <= 255,
            transfer(board.views(), tray.views(), i as int, dir, w, h) == transfer(
                board0,
                tray0,
                0,
                dir,
                w,
                h,
            ),
        decreases tray.bricks@.len() - i,
    {
        let ghost b = tray.views()[i as int];
        assert(tray.bricks@[i as int]@ == b);
        assert(placed(b, tw, th));
        let brick = &tray.bricks[i];
        let width = brick.width() as usize;
        let height = brick.height() as usize;
        let orig = brick.1 as usize;
        let mut at: Option<(usize, usize)> = None;
        match dir {
            Dir::Left => {
                at = Some((orig / 4, 0));
            },
            Dir::Right => {
                if bw >= width + 1 {
                    at = Some((orig / 4, bw - 1 - width));
                }
            },
            Dir::Down => {
                at = Some((0, orig));
            },
            Dir::Up => {
                if bh >= height + 1 {
                    at = Some((bh - 1 - height, orig));
                }
            },
        }
        let mut entered = false;
        if let Some((row, col)) = at {
            assert(row == entry_row(b, dir, h) && col == entry_col(b, dir, w));
            if row + height < bh && col + width < bw {
                proof {
                    assert(can_enter(b, dir, w, h));
                    lemma_entry_placed(b, dir, tw, th, w, h);
                    assert(row * bw + col == entry(b, dir, w, h).orig) by (nonlinear_arith)
                        requires
                            entry(b, dir, w, h).orig == row * w + col,
                            bw == w,
                    ;
                }
                let mut e = brick.duplicate();
                e.1 = (row * bw + col) as u8;
                assert(e@ == entry(b, dir, w, h));
                entered = board.put(&e);
            } else {
                assert(!can_enter(b, dir, w, h));
            }
        } else {
            assert(!can_enter(b, dir, w, h));
        }
        if entered {
            tray.take_out(i);
        } else {
            i += 1;
        }
    }
}

impl Game {
    /// The sizes a board can have: at least one cell and at most 255, so that
    /// a `u8` names each cell, and at most 64 rows, so that it names each row
    /// of a side tray.
    pub open spec fn valid_size(height: u8, width: u8) -> bool {
        1 <= height <= 64 && 1 <= width && height * width <= 255
    }

    /// The game keeps its rules: see `GameView::wf`.
    pub open spec fn wf(&self) -> bool {
        self@.wf()
    }

    /// A game with an empty board of `height` rows and `width` columns and
    /// four empty trays.
    pub fn new(height: u8, width: u8) -> (r: Self)
        requires
            Self::valid_size(height, width),
        ensures
            r.wf(),
            r@ == GameView::fresh(height as int, width as int),
    {
        let r = Game {
            board: Grid::new(width, height),
            tray_up: Grid::new(width, TRAY_DEPTH),
            tray_right: Grid::new(TRAY_DEPTH, height),
            tray_down: Grid::new(width, TRAY_DEPTH),
            tray_left: Grid::new(TRAY_DEPTH, height),
            turn: 0,
            score: 0,
            play: None,
        };
        proof {
            assert(width * height == height * width) by (nonlinear_arith);
            assert(r.board.views() =~= Seq::empty());
            assert(r.tray_up.views() =~= Seq::empty());
            assert(r.tray_down.views() =~= Seq::empty());
            assert(r.tray_left.views() =~= Seq::empty());
            assert(r.tray_right.views() =~= Seq::empty());
            lemma_grid_of(r.board@);
            lemma_grid_of(r.tray_up@);
            lemma_grid_of(r.tray_down@);
            lemma_grid_of(r.tray_left@);
            lemma_grid_of(r.tray_right@);
        }
        r
    }

    /// A new game of `height` rows and `width` columns, with one brick drawn
    /// by chance waiting in a tray where one fits.
    pub fn init(height: u8, width: u8) -> (r: Self)
        requires
            Self::valid_size(height, width),
        ensures
            r.wf(),
            GameView::fresh(height as int, width as int).candidates().len() == 0 ==> r@
                == GameView::fresh(height as int, width as int),
            GameView::fresh(height as int, width as int).candidates().len() > 0 ==> exists|i: int|
                0 <= i < GameView::fresh(height as int, width as int).candidates().len() && r@
                    == #[trigger] GameView::fresh(height as int, width as int).with_candidate(i),
    {
        let mut r = Self::new(height, width);
        r.gen_tray_brick();
        r
    }

    /// The number of columns of the board.
    pub fn _width(&self) -> (r: u8)
        ensures
            r == self@.board.width,
    {
        self.board.width
    }

    /// The number of rows of the board.
    pub fn height(&self) -> (r: u8)
        ensures
            r == self@.board.height,
    {
        self.board.height
    }

    /// The turn counter.
    pub fn turn(&self) -> (r: u8)
        ensures
            r == self@.turn,
    {
        self.turn
    }

    /// Counts one more turn; after 255 comes 0.
    pub fn inc_turn(&mut self)
        ensures
            final(self)@ == (GameView {
                turn: if old(self)@.turn == 255 {
                    0
                } else {
                    old(self)@.turn + 1
                },
                ..old(self)@
            }),
    {
        self.turn = self.turn.wrapping_add(1);
    }

    /// The score: the number of rows and columns cleared so far.
    pub fn score(&self) -> (r: u32)
        ensures
            r == self@.score,
    {
        self.score
    }

    /// The bricks on the board.
    pub fn bricks(&self) -> (r: &Vec<Brick>)
        ensures
            crate::shapes::views_of(r@) == self@.board.bricks,
    {
        &self.board.bricks
    }

    /// The bricks waiting in the tray of `dir`.
    pub fn tray_bricks(&self, dir: Dir) -> (r: &Vec<Brick>)
        ensures
            crate::shapes::views_of(r@) == self@.tray(dir).bricks,
    {
        &self.tray(dir).bricks
    }

    /// The tray along the edge `dir`.
    fn tray(&self, dir: Dir) -> (r: &Grid)
        ensures
            r@ == self@.tray(dir),
    {
        match dir {
            Dir::Up => &self.tray_up,
            Dir::Right => &self.tray_right,
            Dir::Down => &self.tray_down,
            Dir::Left => &self.tray_left,
        }
    }

    /// The mark of cell `id`: of the board for `None`, of the tray of `dir`
    /// for `Some(dir)`.
    pub fn get_dot_val(&self, id: usize, dir: Option<&Dir>) -> (r: Sq)
        requires
            match dir {
                Some(d) => id < self@.tray(*d).cells.len(),
                None => id < self@.board.cells.len(),
            },
        ensures
            r == match dir {
                Some(d) => self@.tray(*d).cells[id as int],
                None => self@.board.cells[id as int],
            },
    {
        match dir {
            Some(d) => self.tray(*d).cells[id],
            None => self.board.cells[id],
        }
    }

    /// Lists every way to put one more canonical brick into a tray.
    pub fn tray_candidates(&self) -> (r: Vec<(Dir, Brick)>)
        requires
            self.wf(),
        ensures
            r@.len() == self@.candidates().len(),
            forall|i: int|
                0 <= i < r@.len() ==> (#[trigger] r@[i]).0 == self@.candidates()[i].0 && r@[i].1@
                    == self@.candidates()[i].1,
    {
        let mut out: Vec<(Dir, Brick)> = Vec::new();
        let variants = Brick::iterator();
        let ghost g = self@;
        let mut d: usize = 0;
        while d < 4
            invariant
                d <= 4,
                g == self@,
                g.wf(),
                variants@.len() == 15,
                forall|v: int| 0 <= v < 15 ==> (#[trigger] variants@[v])@ == variant_brick(v),
                out@.len() == g.cands_d(d as int).len(),
                forall|i: int|
                    0 <= i < out@.len() ==> (#[trigger] out@[i]).0 == g.cands_d(d as int)[i].0
                        && out@[i].1@ == g.cands_d(d as int)[i].1,
            decreases 4 - d,
        {
            let dir = if d == 0 {
                Dir::Up
            } else if d == 1 {
                Dir::Right
            } else if d == 2 {
                Dir::Down
            } else {
                Dir::Left
            };
            assert(dir == dir_at(d as int));
            let tray = self.tray(dir);
            let dimension = dir.if_h(self.board.height, self.board.width);
            let width = dir.if_h(TRAY_DEPTH, self.board.width);
            let step = dir.if_h(TRAY_DEPTH, 1);
            let ghost done = g.cands_d(d as int);
            let mut v: usize = 0;
            while v < 15
                invariant
                    v <= 15,
                    d < 4,
                    dir == dir_at(d as int),
                    g == self@,
                    g.wf(),
                    tray@ == g.tray(dir),
                    dimension == g.reach(dir),
                    width == g.tray(dir).width,
                    step == unit(dir),
                    variants@.len() == 15,
                    forall|v: int| 0 <= v < 15 ==> (#[trigger] variants@[v])@ == variant_brick(v),
                    done == g.cands_d(d as int),
                    out@.len() == (done + g.cands_v(dir, v as int)).len(),
                    forall|i: int|
                        0 <= i < out@.len() ==> (#[trigger] out@[i]).0 == (done + g.cands_v(
                            dir,
                            v as int,
                        ))[i].0 && out@[i].1@ == (done + g.cands_v(dir, v as int))[i].1,
                decreases 15 - v,
            {
                let b = &variants[v];
                let dim = b.dim_in(dir.turn());
                let max: u8 = if dimension > dim {
                    dimension - dim
                } else {
                    0
                };
                assert(max == g.slots(dir, v as int));
                let ghost sofar = done + g.cands_v(dir, v as int);
                let mut p: u8 = 0;
                while p < max
                    invariant
                        p <= max,
                        v < 15,
                        max == g.slots(dir, v as int),
                        g == self@,
                        g.wf(),
                        tray@ == g.tray(dir),
                        width == g.tray(dir).width,
                        step == unit(dir),
                        b@ == variant_brick(v as int),
                        sofar == done + g.cands_v(dir, v as int),
                        out@.len() == (sofar + g.cands_p(dir, v as int, p as int)).len(),
                        forall|i: int|
                            0 <= i < out@.len() ==> (#[trigger] out@[i]).0 == (sofar + g.cands_p(
                                dir,
                                v as int,
                                p as int,
                            ))[i].0 && out@[i].1@ == (sofar + g.cands_p(dir, v as int, p as int))[i].1,
                    decreases max - p,
                {
                    proof {
                        lemma_offer_placed(g, dir, v as int, p as int);
                    }
                    let mut c = b.duplicate();
                    c.1 = p * step;
                    proof {
                        assert(c@ == GameView::offer(dir, v as int, p as int));
                        assert forall|k: int| 0 <= k < c@.dots.len() implies 0 <= #[trigger] c@.cell(
                            k,
                            width as int,
                        ) < tray.cells@.len() by {
                            assert(fits(c@, k, g.tray(dir).width, g.tray(dir).height));
                            lemma_cell_position(c@, k, g.tray(dir).width, g.tray(dir).height);
                        }
                    }
                    if can_occupy(&tray.cells, width, &c) {
                        out.push((dir, c));
                    }
                    p += 1;
                }
                assert(sofar + g.cands_p(dir, v as int, max as int) =~= done + g.cands_v(dir, v + 1));
                v += 1;
            }
            assert(done + g.cands_v(dir, 15) =~= g.cands_d(d + 1));
            d += 1;
        }
        out
    }

    /// Puts candidate number `pick` of `tray_candidates` into its tray; does
    /// nothing where there is no such candidate.
    pub fn gen_tray_brick_at(&mut self, pick: usize)
        requires
            old(self).wf(),
        ensures
            final(self).wf(),
            pick < old(self)@.candidates().len() ==> final(self)@ == old(self)@.with_candidate(
                pick as int,
            ),
            pick >= old(self)@.candidates().len() ==> final(self)@ == old(self)@,
    {
        let cands = self.tray_candidates();
        if pick < cands.len() {
            proof {
                lemma_candidates(self@, 4, pick as int);
            }
            self.add_to_tray(cands[pick].0, &cands[pick].1);
        }
    }

    /// Puts one more canonical brick, drawn by chance among all candidates of
    /// `tray_candidates`, each as likely as the others, into its tray; does
    /// nothing where no tray has room for any.
    pub fn gen_tray_brick(&mut self)
        requires
            old(self).wf(),
        ensures
            final(self).wf(),
            old(self)@.candidates().len() == 0 ==> final(self)@ == old(self)@,
            old(self)@.candidates().len() > 0 ==> exists|i: int|
                0 <= i < old(self)@.candidates().len() && final(self)@
                    == #[trigger] old(self)@.with_candidate(i),
    {
        let ghost before = self@;
        let cands = self.tray_candidates();
        if let Some(pick) = choose_index(cands.len()) {
            proof {
                lemma_candidates(self@, 4, pick as int);
            }
            self.add_to_tray(cands[pick].0, &cands[pick].1);
            assert(self@ == before.with_candidate(pick as int));
        }
    }

    /// Puts `brick` into the tray of `dir`, where it lies inside the tray and
    /// on free cells.
    fn add_to_tray(&mut self, dir: Dir, brick: &Brick)
        requires
            old(self).wf(),
            placed(brick@, old(self)@.tray(dir).width, old(self)@.tray(dir).height),
            free_for(old(self)@.tray(dir).cells, brick@, old(self)@.tray(dir).width),
        ensures
            final(self).wf(),
            final(self)@ == old(self)@.with_tray_brick(dir, brick@),
    {
        let ghost t = self@.tray(dir);
        proof {
            assert forall|k: int| 0 <= k < brick@.dots.len() implies !crate::grid::covered(
                t.bricks,
                t.width,
                #[trigger] brick@.cell(k, t.width),
            ) by {
                assert(fits(brick@, k, t.width, t.height));
                lemma_cell_position(brick@, k, t.width, t.height);
                assert(t.cells[brick@.cell(k, t.width)] == 0);
            }
        }
        let done = match dir {
            Dir::Up => self.tray_up.put(brick),
            Dir::Right => self.tray_right.put(brick),
            Dir::Down => self.tray_down.put(brick),
            Dir::Left => self.tray_left.put(brick),
        };
        assert(done);
    }

    /// Lets the bricks waiting in the tray of `dir` enter the board, one after
    /// another: each goes to the cells against its edge, in the rows or
    /// columns it had in the tray, if its bounding box lies inside the board
    /// there and the cells are free, and waits on otherwise.
    pub fn tray_to_grid(&mut self, dir: &Dir)
        requires
            old(self).wf(),
        ensures
            final(self).wf(),
            final(self)@ == old(self)@.entered(*dir),
    {
        match dir {
            Dir::Up => move_in(&mut self.board, &mut self.tray_up, Dir::Up),
            Dir::Right => move_in(&mut self.board, &mut self.tray_right, Dir::Right),
            Dir::Down => move_in(&mut self.board, &mut self.tray_down, Dir::Down),
            Dir::Left => move_in(&mut self.board, &mut self.tray_left, Dir::Left),
        }
        proof {
            lemma_grid_of(self@.board);
            lemma_grid_of(self@.tray(*dir));
        }
    }

    /// Makes the move towards `dir`: slides all bricks of the board that way
    /// as far as they go, then lets the bricks waiting in the tray of the
    /// facing edge enter.
    pub fn play(&mut self, dir: Dir)
        requires
            old(self).wf(),
        ensures
            final(self).wf(),
            final(self)@ == old(self)@.played(dir),
    {
        self.board.slide(dir);
        proof {
            lemma_grid_of(self@.board);
        }
        self.tray_to_grid(&dir.opp());
        self.play = None;
    }

    /// Clears the full rows and columns of the board: counts each of them
    /// into the score, cuts their cells out of the bricks, and marks the
    /// cells free. Hands out the cleared cells, those of a full row that
    /// crosses a full column twice. Where no row and no column is full,
    /// nothing changes.
    pub fn clear_lines(&mut self) -> (cleared: Vec<usize>)
        requires
            old(self).wf(),
            old(self)@.score + full_count(
                old(self)@.board.cells,
                old(self)@.board.width,
                old(self)@.board.height,
            ) <= u32::MAX,
        ensures
            final(self).wf(),
            cleared@ == full_cells(
                old(self)@.board.cells,
                old(self)@.board.width,
                old(self)@.board.height,
            ),
            final(self)@ == old(self)@.cleared(),
            final(self)@.board.cells == zeroed(old(self)@.board.cells, cleared@),
            full_cells(
                final(self)@.board.cells,
                final(self)@.board.width,
                final(self)@.board.height,
            ).len() == 0,
            cleared@.len() == 0 ==> final(self)@ == old(self)@,
    {
        let ghost before = self@.board;
        let (cleared, lines) = self.board.full_lines();
        self.score = self.score + lines;
        if cleared.len() > 0 {
            self.board.clear(cleared.as_slice());
        } else {
            proof {
                lemma_no_cells_no_lines(before.cells, before.width, before.height);
                assert forall|i: int| 0 <= i < before.bricks.len() implies !crate::cut::hit(
                    #[trigger] before.bricks[i],
                    cleared@,
                    before.width,
                ) && before.bricks[i].dots.len() > 0 by {
                    assert(placed(before.bricks[i], before.width, before.height));
                }
                lemma_nothing_cut(before.bricks, cleared@, before.width);
                assert(before.cells =~= zeroed(before.cells, cleared@));
            }
        }
        proof {
            lemma_grid_of(self@.board);
            lemma_cleared_has_no_full_line(before.cells, before.width, before.height);
        }
        cleared
    }
}

/// Clearing the full rows and columns leaves a game that keeps its rules,
/// with the cleared cells free and no row or column full any more.
pub proof fn lemma_cleared(g: GameView)
    requires
        g.wf(),
        g.score + full_count(g.board.cells, g.board.width, g.board.height) <= u32::MAX,
    ensures
        g.cleared().wf(),
        g.cleared().board.cells == zeroed(
            g.board.cells,
            full_cells(g.board.cells, g.board.width, g.board.height),
        ),
        full_cells(g.cleared().board.cells, g.board.width, g.board.height).len() == 0,
        full_count(g.cleared().board.cells, g.board.width, g.board.height) == 0,
{
    let w = g.board.width;
    let h = g.board.height;
    let ids = full_cells(g.board.cells, w, h);
    let after = cleared_bricks(g.board.bricks, ids, w);
    lemma_clearing(g.board.bricks, ids, w, h);
    crate::lines::lemma_full_count_bounds(g.board.cells, w, h);
    assert(w * h >= 0) by (nonlinear_arith)
        requires
            w > 0,
            h > 0,
    ;
    assert(g.cleared().board.cells =~= zeroed(g.board.cells, ids)) by {
        assert forall|c: int| 0 <= c < w * h implies g.cleared().board.cells[c] == zeroed(
            g.board.cells,
            ids,
        )[c] by {
            assert(g.board.cells[c] == mark(covered(g.board.bricks, w, c)));
            assert(g.cleared().board.cells[c] == mark(covered(after, w, c)));
        }
    }
    lemma_cleared_has_no_full_line(g.board.cells, w, h);
}

/// Clearing twice in a row is clearing once: the second time no row and no
/// column is full, nothing is scored and nothing changes.
pub proof fn lemma_cleared_twice(g: GameView)
    requires
        g.wf(),
        g.score + full_count(g.board.cells, g.board.width, g.board.height) <= u32::MAX,
    ensures
        g.cleared().cleared() == g.cleared(),
{
    let w = g.board.width;
    let h = g.board.height;
    let once = g.cleared();
    lemma_cleared(g);
    let none = full_cells(once.board.cells, w, h);
    assert(none =~= Seq::<usize>::empty());
    assert forall|i: int| 0 <= i < once.board.bricks.len() implies !hit(
        #[trigger] once.board.bricks[i],
        none,
        w,
    ) && once.board.bricks[i].dots.len() > 0 by {
        assert(placed(once.board.bricks[i], w, h));
    }
    lemma_nothing_cut(once.board.bricks, none, w);
}

/// Each candidate among the first `d_end` trays is a canonical brick that
/// lies inside its tray, on free cells.
pub proof fn lemma_candidates(g: GameView, d_end: int, i: int)
    requires
        g.wf(),
        0 <= d_end <= 4,
        0 <= i < g.cands_d(d_end).len(),
    ensures
        placed(
            g.cands_d(d_end)[i].1,
            g.tray(g.cands_d(d_end)[i].0).width,
            g.tray(g.cands_d(d_end)[i].0).height,
        ),
        free_for(
            g.tray(g.cands_d(d_end)[i].0).cells,
            g.cands_d(d_end)[i].1,
            g.tray(g.cands_d(d_end)[i].0).width,
        ),
    decreases d_end,
{
    let before = g.cands_d(d_end - 1);
    if i < before.len() {
        lemma_candidates(g, d_end - 1, i);
    } else {
        lemma_candidates_v(g, dir_at(d_end - 1), 15, i - before.len());
    }
}

/// Each candidate of the canonical bricks below `v_end` in the tray of `dir`
/// lies inside that tray, on free cells.
proof fn lemma_candidates_v(g: GameView, dir: Dir, v_end: int, i: int)
    requires
        g.wf(),
        0 <= v_end <= 15,
        0 <= i < g.cands_v(dir, v_end).len(),
    ensures
        g.cands_v(dir, v_end)[i].0 == dir,
        placed(g.cands_v(dir, v_end)[i].1, g.tray(dir).width, g.tray(dir).height),
        free_for(g.tray(dir).cells, g.cands_v(dir, v_end)[i].1, g.tray(dir).width),
    decreases v_end,
{
    let before = g.cands_v(dir, v_end - 1);
    if i < before.len() {
        lemma_candidates_v(g, dir, v_end - 1, i);
    } else {
        lemma_candidates_p(g, dir, v_end - 1, g.slots(dir, v_end - 1), i - before.len());
    }
}

/// Each candidate of canonical brick `v` in the tray of `dir` lies inside
/// that tray, on free cells.
proof fn lemma_candidates_p(g: GameView, dir: Dir, v: int, p_end: int, i: int)
    requires
        g.wf(),
        0 <= v < 15,
        0 <= p_end <= g.slots(dir, v),
        0 <= i < g.cands_p(dir, v, p_end).len(),
    ensures
        g.cands_p(dir, v, p_end)[i].0 == dir,
        placed(g.cands_p(dir, v, p_end)[i].1, g.tray(dir).width, g.tray(dir).height),
        free_for(g.tray(dir).cells, g.cands_p(dir, v, p_end)[i].1, g.tray(dir).width),
    decreases p_end,
{
    let before = g.cands_p(dir, v, p_end - 1);
    if i < before.len() {
        lemma_candidates_p(g, dir, v, p_end - 1, i);
    } else {
        lemma_offer_placed(g, dir, v, p_end - 1);
    }
}

} // verus!
