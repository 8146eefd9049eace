use avalanche::{Brick, Dir, Dot, Shape};

#[test]
fn opposite_directions_face_each_other() {
    assert_eq!(Dir::Up.opp(), Dir::Down);
    assert_eq!(Dir::Down.opp(), Dir::Up);
    assert_eq!(Dir::Left.opp(), Dir::Right);
    assert_eq!(Dir::Right.opp(), Dir::Left);
}

#[test]
fn turning_goes_clockwise() {
    assert_eq!(Dir::Up.turn(), Dir::Right);
    assert_eq!(Dir::Right.turn(), Dir::Down);
    assert_eq!(Dir::Down.turn(), Dir::Left);
    assert_eq!(Dir::Left.turn(), Dir::Up);
}

#[test]
fn four_turns_come_back() {
    for dir in [Dir::Up, Dir::Right, Dir::Down, Dir::Left] {
        assert_eq!(dir.turn().turn().turn().turn(), dir);
        assert_eq!(dir.turn().turn(), dir.opp());
    }
}

#[test]
fn up_and_right_raise_indices() {
    assert!(Dir::Up.is_top_right());
    assert!(Dir::Right.is_top_right());
    assert!(!Dir::Down.is_top_right());
    assert!(!Dir::Left.is_top_right());
    assert_eq!(Dir::Up.if_tr(1, 2), 1);
    assert_eq!(Dir::Left.if_tr(1, 2), 2);
}

#[test]
fn left_and_right_are_horizontal() {
    assert!(Dir::Left.is_horizontal());
    assert!(Dir::Right.is_horizontal());
    assert!(!Dir::Up.is_horizontal());
    assert!(!Dir::Down.is_horizontal());
    assert_eq!(Dir::Right.if_h("row", "column"), "row");
    assert_eq!(Dir::Down.if_h("row", "column"), "column");
}

#[test]
fn defaults_are_the_first_variants() {
    assert_eq!(Shape::default(), Shape::L);
    assert_eq!(Dir::default(), Dir::Up);
    assert_eq!(Brick::default(), Brick(vec![], 0, Shape::L));
}

#[test]
fn dot_index_is_dx_plus_dy_rows_plus_origin() {
    assert_eq!(Dot(2, 3).to_idx(5, 7), 28);
    assert_eq!(Dot(0, 0).to_idx(0, 9), 0);
    assert_eq!(Dot(3, 0).to_idx(4, 4), 7);
}

#[test]
fn dot_index_does_not_wrap() {
    assert_eq!(Dot(255, 255).to_idx(255, 255), 255 + 255 * 255 + 255);
}

#[test]
fn canonical_bricks_follow_the_table() {
    assert_eq!(
        Brick::from(Shape::O, Dir::Left),
        Brick(vec![Dot(0, 0), Dot(1, 0), Dot(1, 1), Dot(0, 1)], 0, Shape::O)
    );
    assert_eq!(
        Brick::from(Shape::L, Dir::Up),
        Brick(vec![Dot(1, 0), Dot(0, 0), Dot(0, 1), Dot(0, 2)], 0, Shape::L)
    );
    assert_eq!(
        Brick::from(Shape::L, Dir::Down),
        Brick(vec![Dot(0, 2), Dot(1, 2), Dot(1, 1), Dot(1, 0)], 0, Shape::L)
    );
    assert_eq!(
        Brick::from(Shape::T, Dir::Up),
        Brick(vec![Dot(0, 1), Dot(1, 1), Dot(2, 1), Dot(1, 0)], 0, Shape::T)
    );
    assert_eq!(
        Brick::from(Shape::Z, Dir::Right),
        Brick(vec![Dot(0, 0), Dot(0, 1), Dot(1, 1), Dot(1, 2)], 0, Shape::Z)
    );
    assert_eq!(
        Brick::from(Shape::I, Dir::Left),
        Brick(vec![Dot(0, 0), Dot(1, 0), Dot(2, 0), Dot(3, 0)], 0, Shape::I)
    );
}

#[test]
fn symmetric_shapes_share_their_dots() {
    for shape in [Shape::S, Shape::Z, Shape::I] {
        assert_eq!(Brick::from(shape, Dir::Up), Brick::from(shape, Dir::Down));
        assert_eq!(Brick::from(shape, Dir::Left), Brick::from(shape, Dir::Right));
    }
    for dir in [Dir::Right, Dir::Down, Dir::Left] {
        assert_eq!(Brick::from(Shape::O, dir), Brick::from(Shape::O, Dir::Up));
    }
}

#[test]
fn every_canonical_brick_has_four_connected_dots() {
    for shape in [Shape::L, Shape::S, Shape::I, Shape::O, Shape::T, Shape::Z] {
        for dir in [Dir::Up, Dir::Right, Dir::Down, Dir::Left] {
            let brick = Brick::from(shape, dir);
            assert_eq!(brick.0.len(), 4);
            assert_eq!(brick.1, 0);
            assert_eq!(brick.2, shape);
            assert_eq!(Dot::group_connected(&brick.0).len(), 1);
            assert!(brick.0.iter().any(|d| d.0 == 0));
            assert!(brick.0.iter().any(|d| d.1 == 0));
        }
    }
}

#[test]
fn iterator_lists_fifteen_bricks() {
    let all = Brick::iterator();
    assert_eq!(all.len(), 15);
    assert_eq!(all[0], Brick::from(Shape::O, Dir::Up));
    assert_eq!(all[1], Brick::from(Shape::L, Dir::Up));
    assert_eq!(all[4], Brick::from(Shape::L, Dir::Left));
    assert_eq!(all[8], Brick::from(Shape::T, Dir::Left));
    assert_eq!(all[10], Brick::from(Shape::S, Dir::Right));
    assert_eq!(all[12], Brick::from(Shape::Z, Dir::Right));
    assert_eq!(all[13], Brick::from(Shape::I, Dir::Up));
    assert_eq!(all[14], Brick::from(Shape::I, Dir::Right));
    assert_eq!(Brick::iterator(), all);
}

#[test]
fn extents_are_the_largest_offsets() {
    let l = Brick::from(Shape::L, Dir::Right);
    assert_eq!(l.width(), 2);
    assert_eq!(l.height(), 1);
    assert_eq!(l.dim_in(Dir::Left), 2);
    assert_eq!(l.dim_in(Dir::Right), 2);
    assert_eq!(l.dim_in(Dir::Up), 1);
    assert_eq!(l.dim_in(Dir::Down), 1);
    let i = Brick::from(Shape::I, Dir::Up);
    assert_eq!(i.width(), 0);
    assert_eq!(i.height(), 3);
    let none = Brick(vec![], 9, Shape::T);
    assert_eq!(none.width(), 0);
    assert_eq!(none.height(), 0);
}

#[test]
fn origin_is_read_back() {
    assert_eq!(Brick(vec![Dot(0, 0)], 17, Shape::O).orig(), 17);
}

#[test]
fn cells_follow_the_row_width() {
    let mut i = Brick::from(Shape::I, Dir::Right);
    i.1 = 4;
    assert_eq!(i.iter_for_width(4), vec![4, 5, 6, 7]);
    let mut t = Brick::from(Shape::T, Dir::Up);
    t.1 = 10;
    assert_eq!(t.iter_for_width(7), vec![17, 18, 19, 11]);
    assert_eq!(t.iter_for_width(7), t.iter_for_width(7));
}

#[test]
fn contains_finds_covered_cells() {
    let mut o = Brick::from(Shape::O, Dir::Up);
    o.1 = 5;
    assert!(o.contains(5, 4));
    assert!(o.contains(6, 4));
    assert!(o.contains(9, 4));
    assert!(o.contains(10, 4));
    assert!(!o.contains(7, 4));
    assert!(!o.contains(4, 4));
    assert!(o.contains_any(&[0, 1, 10], 4));
    assert!(!o.contains_any(&[0, 1, 2, 3, 4], 4));
    assert!(!o.contains_any(&[], 4));
}

#[test]
fn duplicate_is_equal() {
    let mut z = Brick::from(Shape::Z, Dir::Up);
    z.1 = 3;
    assert_eq!(z.duplicate(), z);
}

#[test]
fn reshift_moves_the_origin_to_the_corner() {
    let mut b = Brick(vec![Dot(2, 1), Dot(3, 1)], 0, Shape::I);
    let before = b.iter_for_width(5);
    b.reshift_orig(5);
    assert_eq!(b, Brick(vec![Dot(0, 0), Dot(1, 0)], 7, Shape::I));
    assert_eq!(b.iter_for_width(5), before);
}

#[test]
fn reshift_uses_both_minima() {
    let mut b = Brick(vec![Dot(1, 2), Dot(1, 1), Dot(2, 1)], 3, Shape::L);
    let before = b.iter_for_width(6);
    b.reshift_orig(6);
    assert_eq!(b, Brick(vec![Dot(0, 1), Dot(0, 0), Dot(1, 0)], 10, Shape::L));
    assert_eq!(b.iter_for_width(6), before);
}

#[test]
fn reshift_leaves_a_brick_without_dots_alone() {
    let mut b = Brick(vec![], 250, Shape::S);
    b.reshift_orig(255);
    assert_eq!(b, Brick(vec![], 250, Shape::S));
}

#[test]
fn reshift_of_a_canonical_brick_changes_nothing() {
    for brick in Brick::iterator() {
        let mut copy = brick.duplicate();
        copy.reshift_orig(9);
        assert_eq!(copy, brick);
    }
}

#[test]
fn cutting_the_middle_of_a_bar_leaves_two_single_dots() {
    let mut bar = Brick::from(Shape::I, Dir::Right);
    let rest = bar.cut_at(&[1, 2], 4);
    assert_eq!(bar, Brick(vec![Dot(0, 0)], 0, Shape::I));
    assert_eq!(rest, vec![Brick(vec![Dot(0, 0)], 3, Shape::I)]);
}

#[test]
fn cutting_every_dot_leaves_an_empty_brick() {
    let mut o = Brick::from(Shape::O, Dir::Up);
    o.1 = 5;
    let rest = o.cut_at(&[5, 6, 9, 10], 4);
    assert!(o.0.is_empty());
    assert_eq!(o.2, Shape::O);
    assert!(rest.is_empty());
}

#[test]
fn cutting_beside_a_brick_leaves_it_whole() {
    let mut t = Brick::from(Shape::T, Dir::Up);
    t.1 = 8;
    let cells = t.iter_for_width(8);
    let rest = t.cut_at(&[0, 1, 2, 3], 8);
    assert!(rest.is_empty());
    assert_eq!(t.0.len(), 4);
    let mut after = t.iter_for_width(8);
    let mut before = cells;
    after.sort();
    before.sort();
    assert_eq!(after, before);
}

#[test]
fn cutting_one_end_shrinks_the_brick() {
    let mut bar = Brick::from(Shape::I, Dir::Up);
    bar.1 = 2;
    let rest = bar.cut_at(&[2], 5);
    assert!(rest.is_empty());
    assert_eq!(bar.1, 7);
    assert_eq!(bar.2, Shape::I);
    let mut cells = bar.iter_for_width(5);
    cells.sort();
    assert_eq!(cells, vec![7, 12, 17]);
}

#[test]
fn cutting_a_corner_keeps_the_cells_of_each_piece() {
    let mut l = Brick::from(Shape::L, Dir::Left);
    l.1 = 10;
    let rest = l.cut_at(&[12], 6);
    let mut pieces = rest;
    pieces.push(l);
    let mut cells: Vec<Vec<usize>> = pieces
        .iter()
        .map(|p| {
            let mut c = p.iter_for_width(6);
            c.sort();
            c
        })
        .collect();
    cells.sort();
    assert_eq!(cells, vec![vec![10, 11], vec![18]]);
    for p in &pieces {
        assert_eq!(p.2, Shape::L);
        assert!(p.0.iter().any(|d| d.0 == 0));
        assert!(p.0.iter().any(|d| d.1 == 0));
    }
}
