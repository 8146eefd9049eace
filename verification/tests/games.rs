use avalanche::{Brick, Dir, Dot, Game, Shape};

const DIRS: [Dir; 4] = [Dir::Up, Dir::Right, Dir::Down, Dir::Left];

fn stage(game: &mut Game, dir: Dir, shape: Shape, facing: Dir, orig: u8) {
    let mut brick = Brick::from(shape, facing);
    brick.1 = orig;
    let all = game.tray_candidates();
    let pick = all
        .iter()
        .position(|(d, b)| *d == dir && *b == brick)
        .expect("the brick fits in the tray");
    game.gen_tray_brick_at(pick);
}

fn board(game: &Game) -> Vec<u8> {
    let cells = game._width() as usize * game.height() as usize;
    (0..cells).map(|id| game.get_dot_val(id, None)).collect()
}

fn tray(game: &Game, dir: Dir) -> Vec<u8> {
    let cells = 4 * dir.if_h(game.height(), game._width()) as usize;
    (0..cells).map(|id| game.get_dot_val(id, Some(&dir))).collect()
}

fn marks_follow_bricks(game: &Game) {
    let mut expected = vec![0u8; board(game).len()];
    for b in game.bricks() {
        assert!(!b.0.is_empty());
        for id in b.iter_for_width(game._width()) {
            assert_eq!(expected[id], 0);
            expected[id] = 1;
        }
    }
    assert_eq!(board(game), expected);
    for dir in DIRS {
        let width = dir.if_h(4, game._width());
        let mut expected = vec![0u8; tray(game, dir).len()];
        for b in game.tray_bricks(dir) {
            for id in b.iter_for_width(width) {
                assert_eq!(expected[id], 0);
                expected[id] = 1;
            }
        }
        assert_eq!(tray(game, dir), expected);
    }
}

fn waiting(game: &Game) -> usize {
    DIRS.iter().map(|d| game.tray_bricks(*d).len()).sum()
}

#[test]
fn a_new_game_is_empty() {
    let game = Game::new(5, 7);
    assert_eq!(game.height(), 5);
    assert_eq!(game._width(), 7);
    assert_eq!(game.score(), 0);
    assert_eq!(game.turn(), 0);
    assert_eq!(game.play, None);
    assert!(game.bricks().is_empty());
    assert_eq!(board(&game), vec![0u8; 35]);
    assert_eq!(tray(&game, Dir::Up), vec![0u8; 28]);
    assert_eq!(tray(&game, Dir::Down), vec![0u8; 28]);
    assert_eq!(tray(&game, Dir::Left), vec![0u8; 20]);
    assert_eq!(tray(&game, Dir::Right), vec![0u8; 20]);
    assert_eq!(waiting(&game), 0);
}

#[test]
fn init_puts_one_brick_in_a_tray() {
    for _ in 0..20 {
        let game = Game::init(7, 7);
        assert_eq!(waiting(&game), 1);
        assert!(game.bricks().is_empty());
        assert_eq!(game.score(), 0);
        assert_eq!(game.turn(), 0);
        marks_follow_bricks(&game);
    }
}

#[test]
fn the_turn_counter_wraps() {
    let mut game = Game::new(4, 4);
    for n in 1..=255u16 {
        game.inc_turn();
        assert_eq!(game.turn() as u16, n);
    }
    game.inc_turn();
    assert_eq!(game.turn(), 0);
}

#[test]
fn a_fresh_board_of_four_by_four_has_152_candidates() {
    let game = Game::new(4, 4);
    let all = game.tray_candidates();
    assert_eq!(all.len(), 152);
    assert_eq!(all.iter().filter(|(d, _)| *d == Dir::Up).count(), 39);
    assert_eq!(all.iter().filter(|(d, _)| *d == Dir::Right).count(), 37);
    assert_eq!(all.iter().filter(|(d, _)| *d == Dir::Down).count(), 39);
    assert_eq!(all.iter().filter(|(d, _)| *d == Dir::Left).count(), 37);
    assert_eq!(all[0], (Dir::Up, Brick::from(Shape::O, Dir::Up)));
    let mut second = Brick::from(Shape::O, Dir::Up);
    second.1 = 1;
    assert_eq!(all[1], (Dir::Up, second));
    let mut side = Brick::from(Shape::O, Dir::Up);
    side.1 = 4;
    assert_eq!(all[39], (Dir::Right, Brick::from(Shape::O, Dir::Up)));
    assert_eq!(all[40], (Dir::Right, side));
}

#[test]
fn candidates_lie_on_free_cells_inside_their_tray() {
    let mut game = Game::new(6, 5);
    stage(&mut game, Dir::Left, Shape::O, Dir::Up, 8);
    stage(&mut game, Dir::Up, Shape::I, Dir::Right, 1);
    for (dir, brick) in game.tray_candidates() {
        let width = dir.if_h(4, game._width());
        let cells = tray(&game, dir);
        for id in brick.iter_for_width(width) {
            assert_eq!(cells[id], 0);
        }
        let along = brick.1 / dir.if_h(4, 1);
        assert!(along + brick.dim_in(dir.turn()) < dir.if_h(game.height(), game._width()));
    }
}

#[test]
fn a_chosen_candidate_waits_in_its_tray() {
    let mut game = Game::new(4, 4);
    stage(&mut game, Dir::Left, Shape::L, Dir::Up, 4);
    assert_eq!(waiting(&game), 1);
    let mut l = Brick::from(Shape::L, Dir::Up);
    l.1 = 4;
    assert_eq!(game.tray_bricks(Dir::Left), &vec![l]);
    let mut cells = vec![0u8; 16];
    for id in [5, 4, 8, 12] {
        cells[id] = 1;
    }
    assert_eq!(tray(&game, Dir::Left), cells);
    assert_eq!(board(&game), vec![0u8; 16]);
}

#[test]
fn a_pick_beyond_the_candidates_does_nothing() {
    let mut game = Game::new(4, 4);
    game.gen_tray_brick_at(152);
    assert_eq!(waiting(&game), 0);
    game.gen_tray_brick_at(usize::MAX);
    assert_eq!(waiting(&game), 0);
    game.gen_tray_brick_at(151);
    assert_eq!(waiting(&game), 1);
}

#[test]
fn a_drawn_brick_is_one_of_the_candidates() {
    for _ in 0..50 {
        let mut game = Game::new(5, 5);
        let all = game.tray_candidates();
        game.gen_tray_brick();
        assert_eq!(waiting(&game), 1);
        let dir = *DIRS.iter().find(|d| !game.tray_bricks(**d).is_empty()).unwrap();
        let brick = game.tray_bricks(dir)[0].duplicate();
        assert!(all.contains(&(dir, brick)));
        marks_follow_bricks(&game);
    }
}

#[test]
fn every_tray_gets_its_turn() {
    let mut seen = [false; 4];
    for _ in 0..400 {
        let mut game = Game::new(4, 4);
        game.gen_tray_brick();
        for (i, d) in DIRS.iter().enumerate() {
            if !game.tray_bricks(*d).is_empty() {
                seen[i] = true;
            }
        }
    }
    assert_eq!(seen, [true; 4]);
}

#[test]
fn full_trays_take_no_more_bricks() {
    let mut game = Game::new(1, 1);
    assert_eq!(game.tray_candidates().len(), 4);
    for n in 1..=4 {
        game.gen_tray_brick();
        assert_eq!(waiting(&game), n);
    }
    assert!(game.tray_candidates().is_empty());
    for dir in DIRS {
        assert_eq!(tray(&game, dir), vec![1u8; 4]);
        assert_eq!(game.tray_bricks(dir).len(), 1);
    }
    let trays: Vec<Vec<Brick>> = DIRS.iter().map(|d| game.tray_bricks(*d).clone()).collect();
    for _ in 0..10 {
        game.gen_tray_brick();
        game.gen_tray_brick_at(0);
    }
    assert_eq!(waiting(&game), 4);
    for (i, dir) in DIRS.iter().enumerate() {
        assert_eq!(tray(&game, *dir), vec![1u8; 4]);
        assert_eq!(game.tray_bricks(*dir), &trays[i]);
    }
    assert_eq!(board(&game), vec![0u8]);
}

#[test]
fn bricks_enter_against_their_edge() {
    let mut game = Game::new(5, 6);
    stage(&mut game, Dir::Left, Shape::L, Dir::Right, 8);
    game.tray_to_grid(&Dir::Left);
    assert_eq!(game.bricks().last().unwrap().1, 2 * 6);

    let mut game = Game::new(5, 6);
    stage(&mut game, Dir::Right, Shape::L, Dir::Right, 8);
    game.tray_to_grid(&Dir::Right);
    assert_eq!(game.bricks().last().unwrap().1, 2 * 6 + 6 - 2 - 1);

    let mut game = Game::new(5, 6);
    stage(&mut game, Dir::Down, Shape::T, Dir::Right, 2);
    game.tray_to_grid(&Dir::Down);
    assert_eq!(game.bricks().last().unwrap().1, 2);

    let mut game = Game::new(5, 6);
    stage(&mut game, Dir::Up, Shape::O, Dir::Up, 3);
    game.tray_to_grid(&Dir::Up);
    assert_eq!(game.bricks().last().unwrap().1, 3 + 6 * (5 - 1 - 1));
    assert_eq!(game.bricks().len(), 1);
    assert_eq!(waiting(&game), 0);
    assert_eq!(tray(&game, Dir::Up), vec![0u8; 24]);
    marks_follow_bricks(&game);
}

#[test]
fn bricks_from_all_trays_meet_on_the_board() {
    let mut game = Game::new(6, 6);
    stage(&mut game, Dir::Left, Shape::O, Dir::Up, 8);
    stage(&mut game, Dir::Right, Shape::O, Dir::Up, 8);
    stage(&mut game, Dir::Down, Shape::O, Dir::Up, 2);
    stage(&mut game, Dir::Up, Shape::O, Dir::Up, 2);
    for dir in DIRS {
        game.tray_to_grid(&dir);
    }
    let origins: Vec<u8> = game.bricks().iter().map(|b| b.1).collect();
    assert_eq!(origins, vec![26, 16, 2, 12]);
    assert_eq!(waiting(&game), 0);
    marks_follow_bricks(&game);
}

#[test]
fn an_empty_tray_gives_nothing() {
    let mut game = Game::new(4, 4);
    stage(&mut game, Dir::Left, Shape::O, Dir::Up, 0);
    game.tray_to_grid(&Dir::Right);
    game.tray_to_grid(&Dir::Up);
    game.tray_to_grid(&Dir::Down);
    assert!(game.bricks().is_empty());
    assert_eq!(waiting(&game), 1);
    assert_eq!(board(&game), vec![0u8; 16]);
}

#[test]
fn a_blocked_brick_waits_in_its_tray() {
    let mut game = Game::new(4, 4);
    stage(&mut game, Dir::Left, Shape::O, Dir::Up, 0);
    game.tray_to_grid(&Dir::Left);
    stage(&mut game, Dir::Left, Shape::O, Dir::Up, 4);
    stage(&mut game, Dir::Left, Shape::I, Dir::Right, 12);
    let before = tray(&game, Dir::Left);
    game.tray_to_grid(&Dir::Left);
    assert_eq!(game.bricks().len(), 2);
    assert_eq!(game.bricks()[1], Brick(vec![Dot(0, 0), Dot(1, 0), Dot(2, 0), Dot(3, 0)], 12, Shape::I));
    assert_eq!(game.tray_bricks(Dir::Left).len(), 1);
    assert_eq!(game.tray_bricks(Dir::Left)[0].1, 4);
    let mut left = before;
    for id in 12..16 {
        left[id] = 0;
    }
    assert_eq!(tray(&game, Dir::Left), left);
    marks_follow_bricks(&game);
    game.play(Dir::Right);
    assert_eq!(game.bricks().len(), 3);
    assert_eq!(waiting(&game), 0);
    marks_follow_bricks(&game);
}

#[test]
fn a_brick_wider_than_the_board_waits() {
    let mut game = Game::new(1, 1);
    game.gen_tray_brick_at(0);
    game.gen_tray_brick_at(0);
    game.gen_tray_brick_at(0);
    game.gen_tray_brick_at(0);
    for dir in DIRS {
        game.play(dir);
        assert!(game.bricks().is_empty());
        assert_eq!(waiting(&game), 4);
    }
}

#[test]
fn a_move_slides_then_lets_the_facing_tray_in() {
    let mut game = Game::new(4, 4);
    stage(&mut game, Dir::Left, Shape::O, Dir::Up, 0);
    game.play = Some(Dir::Right);
    game.play(Dir::Right);
    assert_eq!(game.play, None);
    assert_eq!(game.bricks(), &vec![Brick::from(Shape::O, Dir::Up)]);
    assert_eq!(waiting(&game), 0);
    game.play(Dir::Right);
    assert_eq!(game.bricks()[0].1, 2);
    game.play(Dir::Up);
    assert_eq!(game.bricks()[0].1, 10);
    game.play(Dir::Left);
    assert_eq!(game.bricks()[0].1, 8);
    game.play(Dir::Down);
    assert_eq!(game.bricks()[0].1, 0);
    game.play(Dir::Down);
    assert_eq!(game.bricks()[0].1, 0);
    assert_eq!(game.score(), 0);
    assert_eq!(game.turn(), 0);
    marks_follow_bricks(&game);
}

#[test]
fn a_full_row_is_cleared_and_scored() {
    let mut game = Game::new(4, 4);
    stage(&mut game, Dir::Left, Shape::I, Dir::Right, 0);
    game.play(Dir::Right);
    assert_eq!(board(&game), vec![1, 1, 1, 1, 0, 0, 0, 0, 0, 0, 0, 0, 0, 0, 0, 0]);
    let cleared = game.clear_lines();
    assert_eq!(cleared, vec![0, 1, 2, 3]);
    assert_eq!(game.score(), 1);
    assert!(game.bricks().is_empty());
    assert_eq!(board(&game), vec![0u8; 16]);
}

#[test]
fn a_row_with_a_gap_is_not_cleared() {
    let mut game = Game::new(4, 4);
    stage(&mut game, Dir::Left, Shape::L, Dir::Left, 0);
    game.play(Dir::Right);
    assert_eq!(board(&game), vec![1, 1, 1, 0, 0, 0, 1, 0, 0, 0, 0, 0, 0, 0, 0, 0]);
    let bricks = game.bricks().clone();
    let cleared = game.clear_lines();
    assert!(cleared.is_empty());
    assert_eq!(game.score(), 0);
    assert_eq!(game.bricks(), &bricks);
    assert_eq!(board(&game), vec![1, 1, 1, 0, 0, 0, 1, 0, 0, 0, 0, 0, 0, 0, 0, 0]);
}

#[test]
fn a_full_column_is_cleared_and_scored() {
    let mut game = Game::new(4, 4);
    stage(&mut game, Dir::Down, Shape::I, Dir::Up, 2);
    stage(&mut game, Dir::Down, Shape::O, Dir::Up, 0);
    game.play(Dir::Up);
    let cleared = game.clear_lines();
    assert_eq!(cleared, vec![2, 6, 10, 14]);
    assert_eq!(game.score(), 1);
    assert_eq!(game.bricks(), &vec![Brick::from(Shape::O, Dir::Up)]);
    marks_follow_bricks(&game);
}

#[test]
fn a_row_and_a_column_score_two() {
    let mut game = Game::new(4, 4);
    stage(&mut game, Dir::Down, Shape::I, Dir::Up, 0);
    game.play(Dir::Up);
    stage(&mut game, Dir::Left, Shape::L, Dir::Left, 0);
    game.play(Dir::Right);
    assert_eq!(board(&game), vec![1, 1, 1, 1, 0, 0, 1, 1, 0, 0, 0, 1, 0, 0, 0, 1]);
    let cleared = game.clear_lines();
    assert_eq!(cleared, vec![0, 1, 2, 3, 3, 7, 11, 15]);
    assert_eq!(game.score(), 2);
    assert_eq!(game.bricks(), &vec![Brick(vec![Dot(0, 0)], 6, Shape::L)]);
    marks_follow_bricks(&game);
}

#[test]
fn clearing_twice_finds_nothing_the_second_time() {
    let mut game = Game::new(4, 4);
    stage(&mut game, Dir::Left, Shape::I, Dir::Right, 4);
    stage(&mut game, Dir::Left, Shape::O, Dir::Up, 8);
    game.play(Dir::Right);
    let first = game.clear_lines();
    assert_eq!(first, vec![4, 5, 6, 7]);
    assert_eq!(game.score(), 1);
    let bricks = game.bricks().clone();
    let cells = board(&game);
    let second = game.clear_lines();
    assert!(second.is_empty());
    assert_eq!(game.score(), 1);
    assert_eq!(game.bricks(), &bricks);
    assert_eq!(board(&game), cells);
}

#[test]
fn the_marks_follow_the_bricks_through_a_long_game() {
    for size in [(4u8, 4u8), (7, 7), (5, 9), (3, 2)] {
        let mut game = Game::init(size.0, size.1);
        let mut score = 0;
        for turn in 0..300usize {
            let dir = DIRS[(turn * 7 + turn / 3) % 4];
            let bricks = game.bricks().len();
            let before: usize = game.bricks().iter().map(|b| b.0.len()).sum();
            game.play(dir);
            marks_follow_bricks(&game);
            assert!(game.bricks().len() >= bricks);
            assert!(game.bricks().iter().map(|b| b.0.len()).sum::<usize>() >= before);
            game.gen_tray_brick();
            marks_follow_bricks(&game);
            let cleared = game.clear_lines();
            marks_follow_bricks(&game);
            assert!(game.score() >= score);
            assert_eq!(cleared.is_empty(), game.score() == score);
            score = game.score();
            for id in &cleared {
                assert_eq!(game.get_dot_val(*id, None), 0);
            }
            for b in game.bricks() {
                assert_eq!(Dot::group_connected(&b.0).len(), 1);
                assert!(b.0.iter().any(|d| d.0 == 0));
                assert!(b.0.iter().any(|d| d.1 == 0));
            }
            let again = game.clear_lines();
            assert!(again.is_empty());
            assert_eq!(game.score(), score);
            game.inc_turn();
        }
        assert_eq!(game.turn(), 300usize as u8);
    }
}

#[test]
fn boards_of_every_allowed_shape_play() {
    for size in [(64u8, 3u8), (1, 255), (15, 17), (17, 15), (1, 1), (2, 2), (3, 85), (64, 1)] {
        let mut game = Game::init(size.0, size.1);
        assert_eq!(game.height(), size.0);
        assert_eq!(game._width(), size.1);
        for turn in 0..40usize {
            game.play(DIRS[turn % 4]);
            game.gen_tray_brick();
            game.clear_lines();
            marks_follow_bricks(&game);
        }
    }
}

#[test]
fn a_candidate_list_does_not_change_the_game() {
    let mut game = Game::new(6, 6);
    stage(&mut game, Dir::Up, Shape::T, Dir::Up, 1);
    let cells: Vec<Vec<u8>> = DIRS.iter().map(|d| tray(&game, *d)).collect();
    let first = game.tray_candidates();
    let second = game.tray_candidates();
    assert_eq!(first, second);
    for (i, d) in DIRS.iter().enumerate() {
        assert_eq!(tray(&game, *d), cells[i]);
    }
    assert_eq!(waiting(&game), 1);
}
