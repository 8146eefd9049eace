//! A sliding-block puzzle engine: polyomino bricks wait in four edge trays,
//! enter a rectangular board, slide across it until blocked, and are cut
//! apart when the rows and columns they complete are cleared.
//!
//! - [`shapes`]: shapes, directions, dots and bricks.
//! - [`clusters`]: the split of dots into maximal rook-connected clusters.
//! - [`grid`]: occupancy grids, and the slide of all bricks towards an edge.
//! - [`lines`]: the full rows and columns of a grid.
//! - [`cut`]: cutting cells out of the bricks of a grid.
//! - [`game`]: the board with its four trays, the score and the turn.

mod chance;
pub mod clusters;
pub mod cut;
pub mod game;
pub mod grid;
pub mod lines;
pub mod shapes;

pub use game::{Game, GameView};
pub use grid::{can_occupy, occupy, Grid, GridView, Sq};
pub use shapes::{Brick, BrickView, Dir, Dot, Shape};
