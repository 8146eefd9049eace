use avalanche::grid::Grid;
use avalanche::{can_occupy, occupy, Brick, Dir, Dot, Shape};

fn at(shape: Shape, dir: Dir, orig: u8) -> Brick {
    let mut b = Brick::from(shape, dir);
    b.1 = orig;
    b
}

fn marks_follow_bricks(grid: &Grid) {
    let mut expected = vec![0u8; grid.cells.len()];
    for b in &grid.bricks {
        assert!(!b.0.is_empty());
        for id in b.iter_for_width(grid.width) {
            assert_eq!(expected[id], 0);
            expected[id] = 1;
        }
    }
    assert_eq!(grid.cells, expected);
}

#[test]
fn a_brick_can_occupy_free_cells_only() {
    let mut cells = vec![0u8; 16];
    let o = at(Shape::O, Dir::Up, 5);
    assert!(can_occupy(&cells, 4, &o));
    cells[10] = 1;
    assert!(!can_occupy(&cells, 4, &o));
    cells[10] = 0;
    cells[11] = 1;
    assert!(can_occupy(&cells, 4, &o));
}

#[test]
fn occupy_marks_the_cells_of_the_brick() {
    let mut cells = vec![0u8; 16];
    let o = at(Shape::O, Dir::Up, 5);
    assert!(occupy(&mut cells, 4, &o));
    assert_eq!(cells, vec![0, 0, 0, 0, 0, 1, 1, 0, 0, 1, 1, 0, 0, 0, 0, 0]);
}

#[test]
fn occupy_leaves_the_grid_alone_when_blocked() {
    let mut cells = vec![0u8; 16];
    cells[6] = 1;
    let before = cells.clone();
    assert!(!occupy(&mut cells, 4, &at(Shape::O, Dir::Up, 5)));
    assert_eq!(cells, before);
}

#[test]
fn a_new_grid_is_empty() {
    let grid = Grid::new(5, 3);
    assert_eq!(grid.width, 5);
    assert_eq!(grid.height, 3);
    assert_eq!(grid.cells, vec![0u8; 15]);
    assert!(grid.bricks.is_empty());
}

#[test]
fn put_adds_a_brick_on_free_cells() {
    let mut grid = Grid::new(4, 4);
    assert!(grid.put(&at(Shape::O, Dir::Up, 0)));
    assert!(grid.put(&at(Shape::I, Dir::Right, 8)));
    assert_eq!(grid.bricks.len(), 2);
    marks_follow_bricks(&grid);
    let before = (grid.cells.clone(), grid.bricks.clone());
    assert!(!grid.put(&at(Shape::O, Dir::Up, 1)));
    assert_eq!((grid.cells.clone(), grid.bricks.clone()), before);
}

#[test]
fn take_out_frees_the_cells() {
    let mut grid = Grid::new(4, 4);
    assert!(grid.put(&at(Shape::O, Dir::Up, 0)));
    assert!(grid.put(&at(Shape::I, Dir::Right, 8)));
    let out = grid.take_out(0);
    assert_eq!(out, at(Shape::O, Dir::Up, 0));
    assert_eq!(grid.bricks, vec![at(Shape::I, Dir::Right, 8)]);
    marks_follow_bricks(&grid);
}

#[test]
fn edges_are_where_a_slide_ends() {
    let mut grid = Grid::new(4, 4);
    assert!(grid.put(&at(Shape::O, Dir::Up, 0)));
    assert!(grid.touches_edge(0, Dir::Down));
    assert!(grid.touches_edge(0, Dir::Left));
    assert!(!grid.touches_edge(0, Dir::Up));
    assert!(!grid.touches_edge(0, Dir::Right));
    assert!(grid.put(&at(Shape::O, Dir::Up, 10)));
    assert!(grid.touches_edge(1, Dir::Up));
    assert!(grid.touches_edge(1, Dir::Right));
    assert!(!grid.touches_edge(1, Dir::Down));
    assert!(!grid.touches_edge(1, Dir::Left));
}

#[test]
fn one_step_moves_the_origin() {
    let mut grid = Grid::new(4, 4);
    assert!(grid.put(&at(Shape::O, Dir::Up, 5)));
    assert!(grid.try_step(0, Dir::Right));
    assert_eq!(grid.bricks[0].1, 6);
    assert!(grid.try_step(0, Dir::Up));
    assert_eq!(grid.bricks[0].1, 10);
    assert!(grid.try_step(0, Dir::Left));
    assert_eq!(grid.bricks[0].1, 9);
    assert!(grid.try_step(0, Dir::Down));
    assert_eq!(grid.bricks[0].1, 5);
    marks_follow_bricks(&grid);
}

#[test]
fn a_blocked_brick_stays() {
    let mut grid = Grid::new(4, 4);
    assert!(grid.put(&at(Shape::O, Dir::Up, 0)));
    assert!(grid.put(&at(Shape::O, Dir::Up, 2)));
    let before = (grid.cells.clone(), grid.bricks.clone());
    assert!(!grid.try_step(0, Dir::Right));
    assert_eq!((grid.cells.clone(), grid.bricks.clone()), before);
}

#[test]
fn a_lone_brick_slides_to_the_edge() {
    for (dir, end) in [(Dir::Right, 6u8), (Dir::Left, 4), (Dir::Up, 9), (Dir::Down, 1)] {
        let mut grid = Grid::new(4, 4);
        assert!(grid.put(&at(Shape::O, Dir::Up, 5)));
        grid.slide(dir);
        assert_eq!(grid.bricks, vec![at(Shape::O, Dir::Up, end)]);
        marks_follow_bricks(&grid);
        let settled = (grid.cells.clone(), grid.bricks.clone());
        grid.slide(dir);
        assert_eq!((grid.cells.clone(), grid.bricks.clone()), settled);
    }
}

#[test]
fn a_lone_brick_moves_by_the_cells_ahead_of_it() {
    let mut grid = Grid::new(7, 5);
    assert!(grid.put(&at(Shape::L, Dir::Right, 8)));
    grid.slide(Dir::Right);
    assert_eq!(grid.bricks[0].1, 8 + 3);
    grid.slide(Dir::Up);
    assert_eq!(grid.bricks[0].1, 11 + 2 * 7);
    grid.slide(Dir::Left);
    assert_eq!(grid.bricks[0].1, 25 - 4);
    grid.slide(Dir::Down);
    assert_eq!(grid.bricks[0].1, 21 - 3 * 7);
}

#[test]
fn bricks_pile_up_behind_each_other() {
    let mut grid = Grid::new(6, 2);
    assert!(grid.put(&at(Shape::O, Dir::Up, 0)));
    assert!(grid.put(&at(Shape::O, Dir::Up, 2)));
    grid.slide(Dir::Right);
    assert_eq!(grid.bricks, vec![at(Shape::O, Dir::Up, 2), at(Shape::O, Dir::Up, 4)]);
    marks_follow_bricks(&grid);
    grid.slide(Dir::Left);
    assert_eq!(grid.bricks, vec![at(Shape::O, Dir::Up, 0), at(Shape::O, Dir::Up, 2)]);
    marks_follow_bricks(&grid);
}

#[test]
fn a_slide_ends_where_nothing_can_move() {
    let mut grid = Grid::new(5, 5);
    assert!(grid.put(&at(Shape::T, Dir::Up, 0)));
    assert!(grid.put(&at(Shape::I, Dir::Up, 4)));
    assert!(grid.put(&at(Shape::O, Dir::Up, 15)));
    assert!(grid.put(&at(Shape::Z, Dir::Right, 12)));
    for dir in [Dir::Up, Dir::Right, Dir::Down, Dir::Left, Dir::Up, Dir::Left] {
        grid.slide(dir);
        marks_follow_bricks(&grid);
        assert_eq!(grid.bricks.len(), 4);
        for i in 0..grid.bricks.len() {
            if !grid.touches_edge(i, dir) {
                let before = (grid.cells.clone(), grid.bricks.clone());
                assert!(!grid.try_step(i, dir));
                assert_eq!((grid.cells.clone(), grid.bricks.clone()), before);
            }
        }
    }
}

#[test]
fn full_lines_are_found_in_order() {
    let mut grid = Grid::new(4, 4);
    assert!(grid.put(&at(Shape::I, Dir::Right, 4)));
    let (cells, lines) = grid.full_lines();
    assert_eq!(cells, vec![4, 5, 6, 7]);
    assert_eq!(lines, 1);
    assert!(grid.put(&at(Shape::I, Dir::Up, 2)) == false);
}

#[test]
fn a_crossing_cell_is_listed_twice() {
    let mut grid = Grid {
        cells: vec![0u8; 9],
        bricks: vec![
            Brick(vec![Dot(0, 0), Dot(1, 0), Dot(2, 0)], 3, Shape::I),
            Brick(vec![Dot(0, 0)], 1, Shape::O),
            Brick(vec![Dot(0, 0)], 7, Shape::O),
        ],
        width: 3,
        height: 3,
    };
    for c in [1, 3, 4, 5, 7] {
        grid.cells[c] = 1;
    }
    marks_follow_bricks(&grid);
    let (cells, lines) = grid.full_lines();
    assert_eq!(lines, 2);
    assert_eq!(cells, vec![3, 1, 4, 4, 5, 7]);
    grid.clear(&cells);
    assert!(grid.bricks.is_empty());
    assert_eq!(grid.cells, vec![0u8; 9]);
}

#[test]
fn lines_of_a_grid_that_is_not_square() {
    let mut grid = Grid::new(2, 3);
    assert!(grid.put(&Brick(vec![Dot(0, 0), Dot(0, 1), Dot(0, 2)], 1, Shape::I)));
    assert!(grid.put(&Brick(vec![Dot(0, 0)], 4, Shape::O)));
    let (cells, lines) = grid.full_lines();
    assert_eq!(lines, 2);
    assert_eq!(cells, vec![1, 3, 5, 4, 5]);
    grid.clear(&cells);
    marks_follow_bricks(&grid);
    assert!(grid.bricks.is_empty());
    let (cells, lines) = grid.full_lines();
    assert!(cells.is_empty());
    assert_eq!(lines, 0);
}

#[test]
fn a_column_clear_splits_a_bar_in_two() {
    let mut grid = Grid::new(5, 4);
    assert!(grid.put(&at(Shape::I, Dir::Right, 0)));
    assert!(grid.put(&at(Shape::O, Dir::Up, 6)));
    assert!(grid.put(&Brick(vec![Dot(0, 0), Dot(1, 0)], 16, Shape::S)));
    let (cells, lines) = grid.full_lines();
    assert_eq!(lines, 2);
    assert_eq!(cells, vec![1, 6, 11, 16, 2, 7, 12, 17]);
    grid.clear(&cells);
    assert_eq!(
        grid.bricks,
        vec![Brick(vec![Dot(0, 0)], 0, Shape::I), Brick(vec![Dot(0, 0)], 3, Shape::I)]
    );
    marks_follow_bricks(&grid);
    assert!(!grid.bricks.contains(&at(Shape::I, Dir::Right, 0)));
}

#[test]
fn clearing_nothing_changes_nothing() {
    let mut grid = Grid::new(4, 4);
    assert!(grid.put(&at(Shape::T, Dir::Up, 0)));
    let before = (grid.cells.clone(), grid.bricks.clone());
    grid.clear(&[]);
    assert_eq!((grid.cells.clone(), grid.bricks.clone()), before);
    grid.clear(&[12, 13]);
    assert_eq!((grid.cells.clone(), grid.bricks.clone()), before);
}

#[test]
fn survivors_keep_their_place_and_pieces_follow() {
    let mut grid = Grid::new(6, 3);
    assert!(grid.put(&at(Shape::I, Dir::Right, 0)));
    assert!(grid.put(&at(Shape::O, Dir::Up, 10)));
    assert!(grid.put(&at(Shape::I, Dir::Right, 12)));
    grid.clear(&[1, 13, 14]);
    assert_eq!(
        grid.bricks,
        vec![
            Brick(vec![Dot(0, 0)], 0, Shape::I),
            at(Shape::O, Dir::Up, 10),
            Brick(vec![Dot(0, 0)], 12, Shape::I),
            Brick(vec![Dot(1, 0), Dot(0, 0)], 2, Shape::I),
            Brick(vec![Dot(0, 0)], 15, Shape::I),
        ]
    );
    marks_follow_bricks(&grid);
}
